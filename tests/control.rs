use optiway::checkpoint::Checkpoint;
use optiway::control::{
    initial_checkpoint_text, next_state, parse_progress, worker_args, ControlAction, ControlEvent, OptimizationState,
    Progress, ProgressRecord,
};
use optiway::decimal::parse_decimal;
use optiway::error::OptiError;
use optiway::table::RouteTable;

#[test]
fn progress_line_is_read() {
    let r = parse_progress("2 1500 0 7 123456").unwrap().unwrap();
    assert_eq!(r, ProgressRecord { iteration: 1500, period: 7, index: 123456 });
}

#[test]
fn skipped_tag_is_ignored() {
    assert!(matches!(parse_progress("1 anything at all"), Ok(None)));
    assert!(matches!(parse_progress("1"), Ok(None)));
}

#[test]
fn malformed_progress_lines_fail() {
    assert!(matches!(parse_progress("2 10 0 3"), Err(OptiError::ParseFailure)));
    assert!(matches!(parse_progress("2 ten 0 3 5"), Err(OptiError::ParseFailure)));
    assert!(matches!(parse_progress("2 10 0 12 5"), Err(OptiError::ParseFailure)));
    assert!(matches!(parse_progress(""), Err(OptiError::ParseFailure)));
}

#[test]
fn decimals_are_read_within_bounds() {
    assert_eq!(parse_decimal("0", 10), Some(0));
    assert_eq!(parse_decimal("4294967295", u32::MAX as u128), Some(4294967295));
    assert_eq!(parse_decimal("4294967296", u32::MAX as u128), None);
    assert_eq!(parse_decimal("", 10), None);
    assert_eq!(parse_decimal("1a", 10), None);
    assert_eq!(parse_decimal("-1", 10), None);
    assert_eq!(parse_decimal("340282366920938463463374607431768211455", u128::MAX), Some(u128::MAX));
    assert_eq!(parse_decimal("340282366920938463463374607431768211456", u128::MAX), None);
}

#[test]
fn state_machine_runs_a_pause_and_resume() {
    let (s, a) = next_state(OptimizationState::ParamInput, ControlEvent::Start);
    assert!(matches!(s, OptimizationState::Ready));
    assert_eq!(a, ControlAction::Nothing);
    let (s, a) = next_state(s, ControlEvent::Launch);
    assert!(matches!(s, OptimizationState::Running));
    assert_eq!(a, ControlAction::LaunchWorkers);
    let (s, a) = next_state(s, ControlEvent::Pause);
    assert!(matches!(s, OptimizationState::Paused));
    assert_eq!(a, ControlAction::StopAndMerge);
    let (s, _) = next_state(s, ControlEvent::Resume);
    assert!(matches!(s, OptimizationState::Ready));
    let (s, _) = next_state(s, ControlEvent::WorkerFailed(OptiError::ProcessExitFailure(3)));
    assert!(matches!(s, OptimizationState::Failed(OptiError::ProcessExitFailure(3))));
    let (s, _) = next_state(s, ControlEvent::Resume);
    assert!(matches!(s, OptimizationState::Failed(_)));
    let (s, _) = next_state(s, ControlEvent::Dismiss);
    assert!(matches!(s, OptimizationState::Ready));
    let (s, _) = next_state(OptimizationState::Paused, ControlEvent::Close);
    assert!(matches!(s, OptimizationState::ParamInput));
}

#[test]
fn progress_updates_one_day_and_slot() {
    let baseline = vec![vec![9u128; 12]; 5];
    let mut p = Progress::fresh(&baseline);
    assert_eq!(p.iter, vec![0; 5]);
    p.apply(2, ProgressRecord { iteration: 300, period: 4, index: 77 });
    assert_eq!(p.iter, vec![0, 0, 300, 0, 0]);
    assert_eq!(p.period, vec![0, 0, 4, 0, 0]);
    assert_eq!(p.indices[2 * 12 + 4], 77);
    assert_eq!(p.indices[2 * 12 + 5], 9);
    assert_eq!(p.total_iterations(), 300);
}

#[test]
fn resumed_progress_takes_the_checkpoint() {
    let mut indices = vec![vec![0u128; 12]; 5];
    indices[3][11] = 42;
    let c = Checkpoint { iter: vec![1, 2, 3, 4, 5], indices, routes: RouteTable { students: vec![] } };
    let p = Progress::resumed(&c);
    assert_eq!(p.iter, vec![1, 2, 3, 4, 5]);
    assert_eq!(p.indices[3 * 12 + 11], 42);
    assert_eq!(p.total_iterations(), 15);
}

#[test]
fn total_label_groups_digits() {
    let mut p = Progress::fresh(&vec![vec![0u128; 12]; 5]);
    p.apply(0, ProgressRecord { iteration: 1234567, period: 0, index: 0 });
    assert_eq!(p.total_label(), "1\u{202f}234\u{202f}567");
}

#[test]
fn worker_arguments() {
    let args = worker_args("/tmp/routes.json", 100, 2500, 3);
    assert_eq!(args, vec!["-f", "/tmp/routes.json", "-b", "100", "-s", "500", "-d", "3"]);
}

#[test]
fn fresh_checkpoint_text() {
    let t = initial_checkpoint_text("{\"1\":{}}", "{}");
    assert_eq!(t, "{\"iter\":[0,0,0,0,0],\"indices\":{\"1\":{}},\"routes\":{}}");
}
