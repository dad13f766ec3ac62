pub mod skeleton_filters;
pub mod skeleton_tracing;
