//! Congestion evaluation, performance indices and optimisation control for
//! per-student routes through a school building.

pub mod checkpoint;
pub mod congestion;
pub mod control;
pub mod counting;
pub mod decimal;
pub mod distance;
pub mod entries;
pub mod error;
pub mod index;
pub mod labels;
pub mod route;
pub mod status;
pub mod table;
pub mod timetable;
pub mod view;

pub use labels::{congestion_color_rgb, congestion_range_index, convert_day_of_week, convert_periods};
pub use status::{
    activity_label, path_generation_status, CongestionStatus, PathDisplay, PathGenerationStatus, SolverOutcome,
    TimetableValidationStatus,
};
