//! A grade-point calculator library: grading scales and course weights are
//! loaded from comma-separated rows, per-component grades are aggregated in
//! one of two weighting modes, and the cumulative score is mapped to a
//! grade-point bucket.
pub mod cli;
pub mod course;
pub mod fmt;
pub mod gpa;
pub mod session;
pub mod tui;
