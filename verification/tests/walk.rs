use chrono::Datelike;
use gitplot::git_walk::{
    assemble_repo_data, count_commits_per_day, day_or_epoch, local_date, local_date_defined,
    pick_last_per_day, CommitStamp, WalkMessage, EPOCH_DAY, MAX_DAY, MIN_DAY,
};
use gitplot::types::{DailySnapshot, FileStats};

fn stamp(secs: i64, day: i32) -> CommitStamp {
    CommitStamp { secs, day }
}

fn snap(date: i32, files: &[(&str, u64)]) -> DailySnapshot {
    DailySnapshot {
        date,
        files: files
            .iter()
            .map(|(e, n)| FileStats { extension: e.to_string(), code_lines: *n })
            .collect(),
    }
}

#[test]
fn last_commit_of_each_day_is_picked() {
    let commits = [stamp(100, 5), stamp(300, 2), stamp(200, 5), stamp(50, 2), stamp(250, 5)];
    let picks: Vec<(i32, usize)> =
        pick_last_per_day(&commits).into_iter().map(|p| (p.day, p.commit)).collect();
    assert_eq!(picks, vec![(2, 1), (5, 4)]);
}

#[test]
fn equally_late_commits_keep_the_first_walked() {
    let commits = [stamp(200, 1), stamp(200, 1), stamp(100, 1)];
    let picks: Vec<(i32, usize)> =
        pick_last_per_day(&commits).into_iter().map(|p| (p.day, p.commit)).collect();
    assert_eq!(picks, vec![(1, 0)]);
    assert!(pick_last_per_day(&[]).is_empty());
}

#[test]
fn commits_are_counted_per_day() {
    let commits = [stamp(100, 5), stamp(300, 2), stamp(200, 5), stamp(50, 2), stamp(250, 9)];
    assert_eq!(count_commits_per_day(&commits), vec![(2, 2), (5, 2), (9, 1)]);
    let total: u32 = count_commits_per_day(&commits).iter().map(|c| c.1).sum();
    assert_eq!(total as usize, commits.len());
    assert!(count_commits_per_day(&[]).is_empty());
}

#[test]
fn snapshot_days_match_commit_days() {
    let commits = [stamp(1, 30), stamp(2, 10), stamp(3, 20), stamp(4, 10)];
    let days: Vec<i32> = pick_last_per_day(&commits).iter().map(|p| p.day).collect();
    let counted: Vec<i32> = count_commits_per_day(&commits).iter().map(|c| c.0).collect();
    assert_eq!(days, counted);
}

#[test]
fn assembled_data_is_ordered_by_day_with_sorted_extensions() {
    let snaps = vec![
        snap(30, &[("rs", 10), ("md", 2)]),
        snap(10, &[("toml", 1)]),
        snap(20, &[("rs", 5), ("(no ext)", 3)]),
    ];
    let data = assemble_repo_data(snaps, vec![(10, 1), (20, 4), (30, 2)]);
    let days: Vec<i32> = data.snapshots.iter().map(|s| s.date).collect();
    assert_eq!(days, vec![10, 20, 30]);
    assert_eq!(data.snapshots[2].files[1].extension, "md");
    assert_eq!(data.all_extensions, vec!["(no ext)", "md", "rs", "toml"]);
    assert_eq!(data.commits_per_day, vec![(10, 1), (20, 4), (30, 2)]);
}

#[test]
fn assembling_keeps_same_day_order() {
    let snaps = vec![snap(2, &[("a", 1)]), snap(1, &[]), snap(2, &[("b", 1)])];
    let data = assemble_repo_data(snaps, vec![]);
    assert_eq!(data.snapshots[0].date, 1);
    assert_eq!(data.snapshots[1].files[0].extension, "a");
    assert_eq!(data.snapshots[2].files[0].extension, "b");
    assert!(assemble_repo_data(vec![], vec![]).all_extensions.is_empty());
}

#[test]
fn day_falls_back_to_the_epoch() {
    assert_eq!(day_or_epoch(Some(738_000), Some(719_163)), 738_000);
    assert_eq!(day_or_epoch(None, Some(719_162)), 719_162);
    assert_eq!(day_or_epoch(None, None), EPOCH_DAY);
}

#[test]
fn local_date_of_the_epoch_is_near_1970_01_01() {
    let d = local_date(0);
    assert!((EPOCH_DAY - 1..=EPOCH_DAY + 1).contains(&d));
    let a_day_later = local_date(86_400 * 10);
    assert!((d + 9..=d + 11).contains(&a_day_later));
}

#[test]
fn walk_messages_carry_their_fields() {
    match (WalkMessage::Progress { processed: 3, total: 9 }) {
        WalkMessage::Progress { processed, total } => assert_eq!((processed, total), (3, 9)),
        _ => unreachable!(),
    }
}

#[test]
fn day_range_matches_chrono() {
    assert_eq!(chrono::NaiveDate::MIN.num_days_from_ce(), MIN_DAY);
    assert_eq!(chrono::NaiveDate::MAX.num_days_from_ce(), MAX_DAY);
}

#[test]
fn local_date_stays_within_a_day_of_utc() {
    for secs in [-86_400 * 400_000i64, -1, 0, 1_700_000_000, 4_000_000_000_000] {
        let utc = secs.div_euclid(86_400) as i32 + EPOCH_DAY;
        let d = local_date(secs);
        assert!((utc - 1..=utc + 1).contains(&d), "at {secs}");
    }
}

#[test]
fn local_date_beyond_chrono_range_falls_back_to_the_epoch() {
    for secs in [9_000_000_000_000i64, -9_000_000_000_000, i64::MAX, i64::MIN] {
        assert!(local_date_defined(secs));
        let d = local_date(secs);
        assert!((EPOCH_DAY - 1..=EPOCH_DAY + 1).contains(&d), "at {secs}");
    }
}

#[test]
fn local_date_is_undefined_on_the_edge_days() {
    assert!(!local_date_defined(-8_334_601_228_800));
    assert!(!local_date_defined(-8_334_601_142_401));
    assert!(local_date_defined(-8_334_601_142_400));
    assert!(local_date_defined(-8_334_601_228_801));
    assert!(!local_date_defined(8_210_266_790_400));
    assert!(!local_date_defined(8_210_266_876_799));
    assert!(local_date_defined(8_210_266_876_800));
    assert!(local_date_defined(8_210_266_790_399));
}

#[test]
fn assembly_ignores_delivery_order() {
    let a = || snap(3, &[("rs", 1)]);
    let b = || snap(1, &[("md", 2), ("toml", 9)]);
    let c = || snap(2, &[]);
    let d1 = assemble_repo_data(vec![a(), b(), c()], vec![]);
    let d2 = assemble_repo_data(vec![c(), a(), b()], vec![]);
    let key = |d: &gitplot::types::RepoData| {
        d.snapshots
            .iter()
            .map(|s| (s.date, s.files.iter().map(|f| (f.extension.clone(), f.code_lines)).collect::<Vec<_>>()))
            .collect::<Vec<_>>()
    };
    assert_eq!(key(&d1), key(&d2));
    assert_eq!(d1.all_extensions, d2.all_extensions);
}
