//! The data a walk of a repository's history produces.
use vstd::prelude::*;

verus! {

/// The code lines of one extension bucket in one snapshot.
#[derive(Debug, Clone)]
pub struct FileStats {
    pub extension: String,
    pub code_lines: u64,
}

/// The code lines per extension of the tree of the last commit of one day.
/// `date` is the calendar day as a day number: days since the common era, with
/// 0001-01-01 as day 1 (chrono's `NaiveDate::num_days_from_ce`).
#[derive(Debug, Clone)]
pub struct DailySnapshot {
    pub date: i32,
    pub files: Vec<FileStats>,
}

/// The result of walking a repository's history.
#[derive(Debug, Clone)]
pub struct RepoData {
    /// One snapshot per day that has a commit, ordered by day.
    pub snapshots: Vec<DailySnapshot>,
    /// Every extension bucket that occurs in a snapshot, in ascending order, each once.
    pub all_extensions: Vec<String>,
    /// The number of commits of each day that has one, ordered by day.
    pub commits_per_day: Vec<(i32, u32)>,
}

} // verus!
