use vstd::prelude::*;

use crate::checkpoint::{indices_view, strings_view, Checkpoint};
use crate::decimal::{decimal_value, decimal_within, parse_decimal};
use crate::error::OptiError;
use crate::route::{split_route, split_spaces};
use crate::table::{DAY_COUNT, PERIOD_COUNT};

verus! {

/// One report of the per-day optimiser after a batch.
#[derive(Clone, Copy, PartialEq, Eq, Structural, Debug)]
pub struct ProgressRecord {
    /// Iterations completed so far for the worker's day.
    pub iteration: u64,
    /// The slot whose index was reported.
    pub period: usize,
    /// The slot's new performance index.
    pub index: u128,
}

/// The tag of report lines that carry no progress.
pub open spec fn skipped_tag() -> Seq<char> {
    seq!['1']
}

/// Whether the fields of a progress line can be read: an iteration count, a slot
/// below twelve and an index, at fields 1, 3 and 4.
pub open spec fn fields_readable(ps: Seq<Seq<char>>) -> bool {
    &&& ps.len() >= 5
    &&& decimal_within(ps[1], u64::MAX as int) is Some
    &&& decimal_within(ps[3], PERIOD_COUNT - 1) is Some
    &&& decimal_within(ps[4], u128::MAX as int) is Some
}

/// Reads one line of the optimiser's output, `<tag> <iteration> <ignored> <period>
/// <index>`: `Ok(None)` for a line tagged `1`, which carries no progress.
pub fn parse_progress(line: &str) -> (r: Result<Option<ProgressRecord>, OptiError>)
    ensures
        split_spaces(line@)[0] == skipped_tag() ==> r matches Ok(None),
        split_spaces(line@)[0] != skipped_tag() ==> (r is Ok <==> fields_readable(split_spaces(line@))),
        split_spaces(line@)[0] != skipped_tag() && fields_readable(split_spaces(line@)) ==> r matches Ok(Some(_)),
        r matches Ok(Some(rec)) ==> {
            let ps = split_spaces(line@);
            &&& rec.iteration == decimal_value(ps[1])
            &&& rec.period == decimal_value(ps[3])
            &&& rec.index == decimal_value(ps[4])
        },
        r matches Err(e) ==> e is ParseFailure,
{
    let ps = split_route(line);
    let ghost pv = split_spaces(line@);
    proof {
        assert(pv.len() >= 1) by {
            lemma_split_nonempty(line@);
        }
        assert(pv[0] == ps@[0]@);
    }
    let tag = "1".to_owned();
    proof {
        reveal_strlit("1");
        assert(tag@ =~= skipped_tag());
    }
    if ps[0].eq(&tag) {
        return Ok(None);
    }
    if ps.len() < 5 {
        return Err(OptiError::ParseFailure);
    }
    proof {
        assert(pv[1] == ps@[1]@);
        assert(pv[3] == ps@[3]@);
        assert(pv[4] == ps@[4]@);
    }
    let iteration = parse_decimal(ps[1].as_str(), u64::MAX as u128);
    let period = parse_decimal(ps[3].as_str(), (PERIOD_COUNT - 1) as u128);
    let index = parse_decimal(ps[4].as_str(), u128::MAX);
    match (iteration, period, index) {
        (Some(it), Some(p), Some(ix)) => {
            proof {
                assert(decimal_within(pv[1], u64::MAX as int) is Some);
                assert(decimal_within(pv[3], PERIOD_COUNT - 1) is Some);
                assert(it as int == decimal_value(pv[1]) && it <= u64::MAX);
                assert(p as int == decimal_value(pv[3]) && p < PERIOD_COUNT);
            }
            Ok(Some(ProgressRecord { iteration: it as u64, period: p as usize, index: ix }))
        },
        _ => Err(OptiError::ParseFailure),
    }
}

proof fn lemma_split_nonempty(s: Seq<char>)
    ensures
        split_spaces(s).len() >= 1,
    decreases s.len(),
{
    if s.len() > 0 {
        lemma_split_nonempty(s.drop_last());
    }
}

/// Where the optimisation workflow stands.
#[derive(Clone, Debug)]
pub enum OptimizationState {
    /// Collecting batch size, checkpoint interval and the source routes.
    ParamInput,
    /// Parameters are set; the workers are about to be launched.
    Ready,
    /// One worker per weekday is optimising.
    Running,
    /// Workers are stopped and their checkpoints merged.
    Paused,
    /// A worker could not start or ended abnormally.
    Failed(OptiError),
}

/// What happens to the workflow.
#[derive(Clone, Debug)]
pub enum ControlEvent {
    /// The parameters were confirmed.
    Start,
    /// The controller launches the workers.
    Launch,
    /// The user asked to pause.
    Pause,
    /// The user asked to resume.
    Resume,
    /// The user closed the paused workflow.
    Close,
    /// A worker failed.
    WorkerFailed(OptiError),
    /// The user acknowledged a failure.
    Dismiss,
}

/// What the controller must have done outside after a transition.
#[derive(Clone, Copy, PartialEq, Eq, Structural, Debug)]
pub enum ControlAction {
    Nothing,
    /// Start one worker per weekday, resuming from the main checkpoint where one exists.
    LaunchWorkers,
    /// Interrupt every worker, merge the sub-checkpoints and load the merged routes.
    StopAndMerge,
}

/// The state and action that an event leads to.
pub open spec fn transition(s: OptimizationState, e: ControlEvent) -> (OptimizationState, ControlAction) {
    match (s, e) {
        (OptimizationState::ParamInput, ControlEvent::Start) => (OptimizationState::Ready, ControlAction::Nothing),
        (OptimizationState::Ready, ControlEvent::Launch) => (OptimizationState::Running, ControlAction::LaunchWorkers),
        (OptimizationState::Running, ControlEvent::Pause) => (OptimizationState::Paused, ControlAction::StopAndMerge),
        (OptimizationState::Paused, ControlEvent::Resume) => (OptimizationState::Ready, ControlAction::Nothing),
        (OptimizationState::Paused, ControlEvent::Close) => (OptimizationState::ParamInput, ControlAction::Nothing),
        (OptimizationState::Ready, ControlEvent::WorkerFailed(r)) => (OptimizationState::Failed(r), ControlAction::Nothing),
        (OptimizationState::Running, ControlEvent::WorkerFailed(r)) => (OptimizationState::Failed(r), ControlAction::Nothing),
        (OptimizationState::Failed(_), ControlEvent::Dismiss) => (OptimizationState::Ready, ControlAction::Nothing),
        (s, _) => (s, ControlAction::Nothing),
    }
}

/// The next state of the workflow, and the action the controller must take.
pub fn next_state(s: OptimizationState, e: ControlEvent) -> (r: (OptimizationState, ControlAction))
    ensures
        r == transition(s, e),
{
    match (s, e) {
        (OptimizationState::ParamInput, ControlEvent::Start) => (OptimizationState::Ready, ControlAction::Nothing),
        (OptimizationState::Ready, ControlEvent::Launch) => (OptimizationState::Running, ControlAction::LaunchWorkers),
        (OptimizationState::Running, ControlEvent::Pause) => (OptimizationState::Paused, ControlAction::StopAndMerge),
        (OptimizationState::Paused, ControlEvent::Resume) => (OptimizationState::Ready, ControlAction::Nothing),
        (OptimizationState::Paused, ControlEvent::Close) => (OptimizationState::ParamInput, ControlAction::Nothing),
        (OptimizationState::Ready, ControlEvent::WorkerFailed(r)) => (OptimizationState::Failed(r), ControlAction::Nothing),
        (OptimizationState::Running, ControlEvent::WorkerFailed(r)) => (OptimizationState::Failed(r), ControlAction::Nothing),
        (OptimizationState::Failed(_), ControlEvent::Dismiss) => (OptimizationState::Ready, ControlAction::Nothing),
        (s, _) => (s, ControlAction::Nothing),
    }
}

/// A failed workflow leaves its failure only when the user dismisses it.
pub proof fn lemma_failed_needs_dismissal(r: OptiError, e: ControlEvent)
    requires
        !(e is Dismiss),
    ensures
        transition(OptimizationState::Failed(r), e).0 == OptimizationState::Failed(r),
{
}

/// The character of a decimal digit.
pub open spec fn digit_char(d: int) -> char {
    if d == 0 {
        '0'
    } else if d == 1 {
        '1'
    } else if d == 2 {
        '2'
    } else if d == 3 {
        '3'
    } else if d == 4 {
        '4'
    } else if d == 5 {
        '5'
    } else if d == 6 {
        '6'
    } else if d == 7 {
        '7'
    } else if d == 8 {
        '8'
    } else {
        '9'
    }
}

/// `n` written in decimal, without leading zeros.
pub open spec fn decimal_text(n: nat) -> Seq<char>
    decreases n,
{
    if n < 10 {
        seq![digit_char(n as int)]
    } else {
        decimal_text(n / 10).push(digit_char((n % 10) as int))
    }
}

/// Relies on `u32`'s `ToString`, which writes the number in decimal.
#[verifier::external_body]
pub(crate) fn u32_text(n: u32) -> (r: String)
    ensures
        r@ == decimal_text(n as nat),
{
    n.to_string()
}

/// Digits grouped in threes from the right, the groups joined by narrow no-break spaces.
pub open spec fn grouped(s: Seq<char>) -> Seq<char>
    decreases s.len(),
{
    if s.len() <= 3 {
        s
    } else {
        grouped(s.subrange(0, s.len() - 3)) + seq!['\u{202f}'] + s.subrange(s.len() - 3, s.len() as int)
    }
}

/// `v` as French writes it: its decimal digits grouped in threes by narrow no-break spaces.
pub open spec fn grouped_fr(v: u128) -> Seq<char> {
    grouped(decimal_text(v as nat))
}

/// Relies on num_format's `to_formatted_string` with the French locale, whose grouping
/// is in threes and whose separator is U+202F.
#[verifier::external_body]
pub(crate) fn format_grouped(v: u128) -> (r: String)
    ensures
        r@ == grouped_fr(v),
{
    num_format::ToFormattedString::to_formatted_string(&v, &num_format::Locale::fr)
}

/// The command-line arguments of the optimiser for one weekday: the route file, the
/// batch size, the checkpoint interval per day (a fifth of the total) and the day.
pub fn worker_args(file: &str, batch: u32, save_every: u32, day: u32) -> (r: Vec<String>)
    ensures
        strings_view(r@) == seq![
            "-f"@,
            file@,
            "-b"@,
            decimal_text(batch as nat),
            "-s"@,
            decimal_text((save_every / 5) as nat),
            "-d"@,
            decimal_text(day as nat),
        ],
{
    let mut r: Vec<String> = Vec::new();
    r.push("-f".to_owned());
    r.push(file.to_owned());
    r.push("-b".to_owned());
    r.push(u32_text(batch));
    r.push("-s".to_owned());
    r.push(u32_text(save_every / 5));
    r.push("-d".to_owned());
    r.push(u32_text(day));
    proof {
        assert(strings_view(r@) =~= seq![
            "-f"@,
            file@,
            "-b"@,
            decimal_text(batch as nat),
            "-s"@,
            decimal_text((save_every / 5) as nat),
            "-d"@,
            decimal_text(day as nat),
        ]);
    }
    r
}

/// The text of a fresh main checkpoint: every counter at zero, with the given
/// indices and routes, already written as JSON.
pub fn initial_checkpoint_text(indices_json: &str, routes_json: &str) -> (r: String)
    ensures
        r@ == "{\"iter\":[0,0,0,0,0],\"indices\":"@ + indices_json@ + ",\"routes\":"@ + routes_json@ + "}"@,
{
    let mut r = "{\"iter\":[0,0,0,0,0],\"indices\":".to_owned();
    r.append(indices_json);
    r.append(",\"routes\":");
    r.append(routes_json);
    r.append("}");
    r
}

/// The index of each (day, slot) of `ix`, at `d * 12 + p`.
pub open spec fn flatten(ix: Seq<Seq<u128>>) -> Seq<u128> {
    Seq::new(60, |s: int| ix[s / 12][s % 12])
}

/// The sum of the five day counters.
pub open spec fn iter_total(it: Seq<u64>) -> int {
    it[0] + it[1] + it[2] + it[3] + it[4]
}

/// Live progress of the five workers, as observers read it.
pub struct Progress {
    /// Iterations completed for each weekday.
    pub iter: Vec<u64>,
    /// The slot each weekday's worker reported last.
    pub period: Vec<usize>,
    /// Performance index of each (day, slot), at `d * 12 + p`.
    pub indices: Vec<u128>,
}

impl Progress {
    pub open spec fn wf(&self) -> bool {
        &&& self.iter@.len() == DAY_COUNT
        &&& self.period@.len() == DAY_COUNT
        &&& self.indices@.len() == 60
    }

    fn flat_indices(ix: &Vec<Vec<u128>>) -> (r: Vec<u128>)
        requires
            ix@.len() == DAY_COUNT,
            forall|d: int| 0 <= d < DAY_COUNT ==> #[trigger] ix@[d]@.len() == PERIOD_COUNT,
        ensures
            r@ == flatten(indices_view(ix@)),
    {
        let mut r: Vec<u128> = Vec::new();
        let mut s: usize = 0;
        while s < 60
            invariant
                ix@.len() == DAY_COUNT,
                forall|d: int| 0 <= d < DAY_COUNT ==> #[trigger] ix@[d]@.len() == PERIOD_COUNT,
                s <= 60,
                r@.len() == s,
                forall|k: int| 0 <= k < s ==> #[trigger] r@[k] == flatten(indices_view(ix@))[k],
            decreases 60 - s,
        {
            let d = s / PERIOD_COUNT;
            let p = s % PERIOD_COUNT;
            proof {
                assert(ix@[d as int]@.len() == PERIOD_COUNT);
            }
            r.push(ix[d][p]);
            s = s + 1;
        }
        proof {
            assert(r@ =~= flatten(indices_view(ix@)));
        }
        r
    }

    /// Progress of a fresh run: every counter at zero and the baseline indices.
    pub fn fresh(baseline: &Vec<Vec<u128>>) -> (r: Progress)
        requires
            baseline@.len() == DAY_COUNT,
            forall|d: int| 0 <= d < DAY_COUNT ==> #[trigger] baseline@[d]@.len() == PERIOD_COUNT,
        ensures
            r.wf(),
            r.iter@ == seq![0u64, 0u64, 0u64, 0u64, 0u64],
            r.period@ == seq![0usize, 0usize, 0usize, 0usize, 0usize],
            r.indices@ == flatten(indices_view(baseline@)),
    {
        let iter = vec![0u64, 0u64, 0u64, 0u64, 0u64];
        let period = vec![0usize, 0usize, 0usize, 0usize, 0usize];
        let indices = Self::flat_indices(baseline);
        proof {
            assert(iter@ =~= seq![0u64, 0u64, 0u64, 0u64, 0u64]);
            assert(period@ =~= seq![0usize, 0usize, 0usize, 0usize, 0usize]);
        }
        Progress { iter, period, indices }
    }

    /// Progress of a resumed run: counters and indices from the merged checkpoint.
    pub fn resumed(c: &Checkpoint) -> (r: Progress)
        requires
            c.wf(),
        ensures
            r.wf(),
            r.iter@ == c.iter@,
            r.period@ == seq![0usize, 0usize, 0usize, 0usize, 0usize],
            r.indices@ == flatten(c@.indices),
    {
        let mut iter: Vec<u64> = Vec::new();
        let mut d: usize = 0;
        while d < DAY_COUNT
            invariant
                c.wf(),
                d <= DAY_COUNT,
                iter@ == c.iter@.take(d as int),
            decreases DAY_COUNT - d,
        {
            iter.push(c.iter[d]);
            proof {
                assert(iter@ =~= c.iter@.take(d + 1));
            }
            d = d + 1;
        }
        proof {
            assert(c.iter@.take(DAY_COUNT as int) =~= c.iter@);
        }
        let period = vec![0usize, 0usize, 0usize, 0usize, 0usize];
        let indices = Self::flat_indices(&c.indices);
        proof {
            assert(period@ =~= seq![0usize, 0usize, 0usize, 0usize, 0usize]);
        }
        Progress { iter, period, indices }
    }

    /// Applies one report of the worker of day index `day`.
    pub fn apply(&mut self, day: usize, rec: ProgressRecord)
        requires
            old(self).wf(),
            day < DAY_COUNT,
            rec.period < PERIOD_COUNT,
        ensures
            final(self).wf(),
            final(self).iter@ == old(self).iter@.update(day as int, rec.iteration),
            final(self).period@ == old(self).period@.update(day as int, rec.period),
            final(self).indices@ == old(self).indices@.update(day * 12 + rec.period, rec.index),
    {
        self.iter.set(day, rec.iteration);
        self.period.set(day, rec.period);
        self.indices.set(day * PERIOD_COUNT + rec.period, rec.index);
    }

    /// Iterations completed over the whole week.
    pub fn total_iterations(&self) -> (r: u128)
        requires
            self.wf(),
        ensures
            r == iter_total(self.iter@),
    {
        self.iter[0] as u128 + self.iter[1] as u128 + self.iter[2] as u128 + self.iter[3] as u128
            + self.iter[4] as u128
    }

    /// The week's iteration total as the progress display writes it.
    pub fn total_label(&self) -> (r: String)
        requires
            self.wf(),
        ensures
            r@ == grouped_fr(iter_total(self.iter@) as u128),
    {
        format_grouped(self.total_iterations())
    }
}

} // verus!
