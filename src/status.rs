use vstd::prelude::*;

use crate::control::{decimal_text, OptimizationState};

verus! {

/// Which route table the map shows.
#[derive(Clone, Copy, PartialEq, Eq, Structural, Debug)]
pub enum PathDisplay {
    Shortest,
    Optimized,
}

impl PathDisplay {
    pub open spec fn spec_label(self) -> Seq<char> {
        match self {
            PathDisplay::Shortest => "Shortest route"@,
            PathDisplay::Optimized => "Optimized route"@,
        }
    }

    /// The caption shown for this choice.
    pub fn label(&self) -> (r: String)
        ensures
            r@ == self.spec_label(),
    {
        match self {
            PathDisplay::Shortest => "Shortest route".to_owned(),
            PathDisplay::Optimized => "Optimized route".to_owned(),
        }
    }
}

impl Default for PathDisplay {
    fn default() -> (r: Self)
        ensures
            r == PathDisplay::Shortest,
    {
        PathDisplay::Shortest
    }
}

/// Progress of checking an imported timetable.
#[derive(Clone, Debug)]
pub enum TimetableValidationStatus {
    Ready,
    Validating(i32, String),
    Failed(String),
    Successful,
}

impl TimetableValidationStatus {
    /// The failure message, or an empty string when validation has not failed.
    pub fn get_error_message(&self) -> (r: String)
        ensures
            match self {
                TimetableValidationStatus::Failed(m) => r@ == m@,
                _ => r@ == Seq::<char>::empty(),
            },
    {
        match self {
            TimetableValidationStatus::Failed(message) => message.clone(),
            _ => String::new(),
        }
    }
}

/// Progress of computing the baseline shortest routes.
#[derive(Clone, Debug)]
pub enum PathGenerationStatus {
    Ready,
    Generating(i32, String),
    Failed(String),
    LoadingJSON,
    Successful,
}

impl PathGenerationStatus {
    pub fn is_generating(&self) -> (r: bool)
        ensures
            r == (self is Generating),
    {
        matches!(self, PathGenerationStatus::Generating(_, _))
    }

    pub fn is_loading_json(&self) -> (r: bool)
        ensures
            r == (self is LoadingJSON),
    {
        matches!(self, PathGenerationStatus::LoadingJSON)
    }
}

/// Progress of a congestion evaluation pass.
#[derive(Clone, Debug)]
pub enum CongestionStatus {
    Ready,
    Generating(i32, String),
    Failed(String),
    GeneratingPI(i32, String),
    Successful,
}

impl CongestionStatus {
    /// Whether congestion or performance indices are being computed.
    pub fn is_generating(&self) -> (r: bool)
        ensures
            r == (self is Generating || self is GeneratingPI),
    {
        if let CongestionStatus::Generating(_, _) = self {
            true
        } else {
            matches!(self, CongestionStatus::GeneratingPI(_, _))
        }
    }
}

/// How a run of the baseline shortest-path solver ended.
#[derive(Clone, Copy, PartialEq, Eq, Structural, Debug)]
pub enum SolverOutcome {
    /// The timetable file could not be found.
    TimetableMissing,
    /// The solver could not be started or waited for.
    StartFailed,
    /// The solver ended with this non-zero exit code.
    Exited(i32),
    /// The solver succeeded but its routes file could not be read.
    ResultUnreadable,
    /// The routes file could not be parsed.
    ResultUnparsable,
    /// The routes were read and parsed.
    Succeeded,
}

/// `i` written in decimal, with a minus sign where it is negative.
pub open spec fn signed_text(i: int) -> Seq<char> {
    if i < 0 {
        seq!['-'] + decimal_text((-i) as nat)
    } else {
        decimal_text(i as nat)
    }
}

/// Relies on `i32`'s `ToString`, which writes the number in decimal with a leading
/// minus sign for negative numbers.
#[verifier::external_body]
fn i32_text(i: i32) -> (r: String)
    ensures
        r@ == signed_text(i as int),
{
    i.to_string()
}

/// The message of a failed solver run.
pub open spec fn solver_failure(o: SolverOutcome) -> Seq<char> {
    match o {
        SolverOutcome::TimetableMissing => "Failed to find timetable file."@,
        SolverOutcome::StartFailed => "Failed to execute algorithm binary [floyd.out]."@,
        SolverOutcome::Exited(code) => "Algorithm binary [floyd.out] exited with code "@ + signed_text(code as int) + "."@,
        SolverOutcome::ResultUnreadable => "Failed to read result file [routes.json]."@,
        SolverOutcome::ResultUnparsable => "Failed to parse result file [routes.json]."@,
        SolverOutcome::Succeeded => Seq::empty(),
    }
}

/// The baseline computation's status after the solver run ended as `o`.
pub fn path_generation_status(o: SolverOutcome) -> (r: PathGenerationStatus)
    ensures
        o is Succeeded ==> r is Successful,
        !(o is Succeeded) ==> (r matches PathGenerationStatus::Failed(m) && m@ == solver_failure(o)),
{
    match o {
        SolverOutcome::TimetableMissing => PathGenerationStatus::Failed("Failed to find timetable file.".to_owned()),
        SolverOutcome::StartFailed => PathGenerationStatus::Failed(
            "Failed to execute algorithm binary [floyd.out].".to_owned(),
        ),
        SolverOutcome::Exited(code) => {
            let mut m = "Algorithm binary [floyd.out] exited with code ".to_owned();
            let c = i32_text(code);
            m.append(c.as_str());
            m.append(".");
            PathGenerationStatus::Failed(m)
        },
        SolverOutcome::ResultUnreadable => PathGenerationStatus::Failed(
            "Failed to read result file [routes.json].".to_owned(),
        ),
        SolverOutcome::ResultUnparsable => PathGenerationStatus::Failed(
            "Failed to parse result file [routes.json].".to_owned(),
        ),
        SolverOutcome::Succeeded => PathGenerationStatus::Successful,
    }
}

/// The caption of the status bar: the first activity under way, in this order.
pub open spec fn activity(
    validating: bool,
    path: PathGenerationStatus,
    congestion: CongestionStatus,
    optimization: OptimizationState,
) -> Seq<char> {
    if validating {
        "Validating timetable file"@
    } else if path is Generating {
        "Calculating path"@
    } else if path is LoadingJSON {
        "Loading paths"@
    } else if congestion is Generating || congestion is GeneratingPI {
        "Evaluating congestion"@
    } else if optimization is Running {
        "Optimizing routes"@
    } else {
        "Ready"@
    }
}

/// The caption of the status bar.
pub fn activity_label(
    validating: bool,
    path: &PathGenerationStatus,
    congestion: &CongestionStatus,
    optimization: &OptimizationState,
) -> (r: String)
    ensures
        r@ == activity(validating, *path, *congestion, *optimization),
{
    if validating {
        "Validating timetable file".to_owned()
    } else if path.is_generating() {
        "Calculating path".to_owned()
    } else if path.is_loading_json() {
        "Loading paths".to_owned()
    } else if congestion.is_generating() {
        "Evaluating congestion".to_owned()
    } else if matches!(optimization, OptimizationState::Running) {
        "Optimizing routes".to_owned()
    } else {
        "Ready".to_owned()
    }
}

} // verus!
