//! Lines-of-code history of a git repository: the bookkeeping behind a chart
//! of code lines per day and commits per day.
pub mod app;
pub mod chart;
pub mod git_walk;
pub mod keyed;
pub mod loc;
pub mod rounding;
pub mod text;
pub mod types;
