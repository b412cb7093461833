use optiway::control::OptimizationState;
use optiway::{
    activity_label, path_generation_status, SolverOutcome, congestion_color_rgb, convert_day_of_week, convert_periods, CongestionStatus, PathDisplay, PathGenerationStatus,
    TimetableValidationStatus,
};

#[test]
fn weekday_names() {
    assert_eq!(convert_day_of_week(1), "Monday");
    assert_eq!(convert_day_of_week(5), "Friday");
    assert_eq!(convert_day_of_week(0), "Unknown");
    assert_eq!(convert_day_of_week(6), "Unknown");
}

#[test]
fn period_names() {
    assert_eq!(convert_periods(0), "Before P1");
    assert_eq!(convert_periods(6), "P6\u{2013}Lunch");
    assert_eq!(convert_periods(7), "Lunch\u{2013}P7");
    assert_eq!(convert_periods(11), "After P10");
    assert_eq!(convert_periods(12), "Unknown");
}

#[test]
fn bucket_colours() {
    assert_eq!(congestion_color_rgb(0), (0x61, 0x61, 0x61));
    assert_eq!(congestion_color_rgb(20), (0x00, 0x7a, 0xf5));
    assert_eq!(congestion_color_rgb(401), (0x91, 0x54, 0xff));
}

#[test]
fn status_queries() {
    assert_eq!(TimetableValidationStatus::Failed("bad".to_string()).get_error_message(), "bad");
    assert_eq!(TimetableValidationStatus::Successful.get_error_message(), "");
    assert!(PathGenerationStatus::Generating(0, String::new()).is_generating());
    assert!(!PathGenerationStatus::LoadingJSON.is_generating());
    assert!(PathGenerationStatus::LoadingJSON.is_loading_json());
    assert!(CongestionStatus::GeneratingPI(0, String::new()).is_generating());
    assert!(CongestionStatus::Generating(0, String::new()).is_generating());
    assert!(!CongestionStatus::Successful.is_generating());
    assert_eq!(PathDisplay::Optimized.label(), "Optimized route");
    assert_eq!(PathDisplay::default(), PathDisplay::Shortest);
}

#[test]
fn solver_outcomes() {
    assert!(matches!(path_generation_status(SolverOutcome::Succeeded), PathGenerationStatus::Successful));
    match path_generation_status(SolverOutcome::Exited(-3)) {
        PathGenerationStatus::Failed(m) => assert_eq!(m, "Algorithm binary [floyd.out] exited with code -3."),
        _ => panic!("expected a failure"),
    }
    match path_generation_status(SolverOutcome::Exited(2)) {
        PathGenerationStatus::Failed(m) => assert_eq!(m, "Algorithm binary [floyd.out] exited with code 2."),
        _ => panic!("expected a failure"),
    }
    match path_generation_status(SolverOutcome::ResultUnparsable) {
        PathGenerationStatus::Failed(m) => assert_eq!(m, "Failed to parse result file [routes.json]."),
        _ => panic!("expected a failure"),
    }
}

#[test]
fn status_bar_caption() {
    let ready = PathGenerationStatus::Successful;
    let idle = CongestionStatus::Successful;
    assert_eq!(activity_label(true, &ready, &idle, &OptimizationState::Running), "Validating timetable file");
    assert_eq!(activity_label(false, &PathGenerationStatus::LoadingJSON, &idle, &OptimizationState::Running), "Loading paths");
    assert_eq!(
        activity_label(false, &ready, &CongestionStatus::GeneratingPI(0, String::new()), &OptimizationState::Running),
        "Evaluating congestion"
    );
    assert_eq!(activity_label(false, &ready, &idle, &OptimizationState::Running), "Optimizing routes");
    assert_eq!(activity_label(false, &ready, &idle, &OptimizationState::Paused), "Ready");
}
