use vstd::prelude::*;

verus! {

/// Why a computation, a checkpoint operation or an outside process failed.
#[derive(Clone, Debug)]
pub enum OptiError {
    /// The baseline route table has not been computed yet.
    MissingData,
    /// No distance is known between these two rooms.
    GraphInconsistency(String, String),
    /// A route names a room that the room set does not list.
    UnknownRoom(String),
    /// The counts would not fit their counters.
    CountOverflow,
    /// An outside process could not be started.
    ProcessStartFailure,
    /// An outside process ended with this exit code.
    ProcessExitFailure(i32),
    /// A checkpoint lacks a field or an entry that it must have.
    Corrupt,
    /// Text could not be read in the expected format.
    ParseFailure,
}

} // verus!
