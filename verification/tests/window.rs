use gitplot::app::{App, Command, Message, Status, ViewKind};
use gitplot::git_walk::{assemble_repo_data, WalkMessage};
use gitplot::types::{DailySnapshot, FileStats, RepoData};

fn snap(date: i32, files: &[(&str, u64)]) -> DailySnapshot {
    DailySnapshot {
        date,
        files: files
            .iter()
            .map(|(e, n)| FileStats { extension: e.to_string(), code_lines: *n })
            .collect(),
    }
}

fn sample() -> RepoData {
    assemble_repo_data(
        vec![
            snap(10, &[("rs", 100), ("json", 900)]),
            snap(11, &[("rs", 150), ("json", 950), ("md", 1_200)]),
        ],
        vec![(10, 3), (11, 2)],
    )
}

fn points(app: &App) -> Vec<(i32, u64)> {
    app.chart.as_ref().map(|c| c.points.clone()).unwrap_or_default()
}

fn loaded() -> App {
    let mut app = App::default();
    app.update(Message::WorkerReady);
    app.update(Message::FolderPicked(Some("/repo".to_string())));
    app.update(Message::WalkDone(Box::new(sample())));
    app
}

#[test]
fn new_window_is_idle() {
    let app = App::default();
    assert!(matches!(app.status, Status::Idle));
    assert_eq!(app.title(), "gitplot");
    assert_eq!(app.status_line(), None);
    assert!(!app.shows_chart());
    assert_eq!(app.view, ViewKind::Loc);
}

#[test]
fn open_asks_for_a_folder() {
    let mut app = App::default();
    assert!(matches!(app.update(Message::OpenClicked), Command::PickFolder));
    assert!(matches!(app.update(Message::FolderPicked(None)), Command::Nothing));
    assert!(matches!(app.status, Status::Idle));
}

#[test]
fn picking_a_folder_starts_a_walk_once_the_worker_is_ready() {
    let mut app = App::default();
    assert!(matches!(app.update(Message::FolderPicked(Some("/a".to_string()))), Command::Nothing));
    app.update(Message::WorkerReady);
    match app.update(Message::FolderPicked(Some("/b".to_string()))) {
        Command::StartWalk(p) => assert_eq!(p, "/b"),
        other => panic!("unexpected {other:?}"),
    }
    assert_eq!(app.title(), "gitplot \u{2014} /b");
    assert_eq!(app.status_line().as_deref(), Some("Walking history\u{2026}"));
}

#[test]
fn progress_shows_only_while_loading() {
    let mut app = App::default();
    app.update(Message::WalkProgress { processed: 1, total: 4 });
    assert!(matches!(app.status, Status::Idle));
    app.update(Message::FolderPicked(Some("/r".to_string())));
    app.update(Message::WalkProgress { processed: 1, total: 4 });
    assert_eq!(app.status_line().as_deref(), Some("Walking 1/4"));
}

#[test]
fn finished_walk_charts_all_extensions() {
    let app = loaded();
    assert!(app.shows_chart());
    assert!(app.shows_extension_list());
    assert_eq!(points(&app), vec![(10, 1_000), (11, 2_300)]);
    assert_eq!(app.status_line().as_deref(), Some("Loaded \u{2014} 2 day(s)"));
    let keys: Vec<(String, bool)> = app.enabled.clone();
    assert_eq!(
        keys,
        vec![("json".to_string(), true), ("md".to_string(), true), ("rs".to_string(), true)]
    );
}

#[test]
fn toggling_an_extension_reaggregates() {
    let mut app = loaded();
    app.update(Message::ExtensionToggled("json".to_string(), false));
    assert_eq!(points(&app), vec![(10, 100), (11, 1_350)]);
    app.update(Message::ExtensionToggled("json".to_string(), true));
    assert_eq!(points(&app), vec![(10, 1_000), (11, 2_300)]);
}

#[test]
fn select_none_and_all() {
    let mut app = loaded();
    app.update(Message::DeselectAllExtensions);
    assert_eq!(points(&app), vec![(10, 0), (11, 0)]);
    assert!(app.enabled.iter().all(|(_, on)| !on));
    app.update(Message::SelectAllExtensions);
    assert_eq!(points(&app), vec![(10, 1_000), (11, 2_300)]);
}

#[test]
fn commits_view_shows_running_totals() {
    let mut app = loaded();
    app.update(Message::ViewSelected(ViewKind::Commits));
    assert_eq!(points(&app), vec![(10, 3), (11, 5)]);
    assert_eq!(app.chart.as_ref().unwrap().unit_label, "commits");
    assert!(!app.shows_extension_list());
    app.update(Message::ViewSelected(ViewKind::Loc));
    assert_eq!(app.chart.as_ref().unwrap().unit_label, "LOC");
}

#[test]
fn failed_walk_shows_the_error() {
    let mut app = loaded();
    app.update(Message::WalkFailed("not a git repo".to_string()));
    assert_eq!(app.status_line().as_deref(), Some("Error: not a git repo"));
    assert!(app.chart.is_none());
    assert!(!app.shows_chart());
}

#[test]
fn sidebar_rows_label_latest_lines() {
    let mut app = loaded();
    app.update(Message::ExtensionToggled("md".to_string(), false));
    let rows: Vec<(String, bool, String)> =
        app.sidebar_rows().into_iter().map(|r| (r.extension, r.enabled, r.label)).collect();
    assert_eq!(
        rows,
        vec![
            ("json".to_string(), true, ".json   950".to_string()),
            ("md".to_string(), false, ".md   1.2k".to_string()),
            ("rs".to_string(), true, ".rs   150".to_string()),
        ]
    );
    let latest = app.latest_loc_per_extension();
    assert_eq!(latest[1], ("md".to_string(), 1_200));
}

#[test]
fn walk_reports_become_messages() {
    let (m, done) = Message::from_walk(WalkMessage::Progress { processed: 2, total: 3 });
    assert!(!done);
    assert!(matches!(m, Message::WalkProgress { processed: 2, total: 3 }));
    let (m, done) = Message::from_walk(WalkMessage::Failed("x".to_string()));
    assert!(done);
    assert!(matches!(m, Message::WalkFailed(_)));
    let (m, done) = Message::from_walk(WalkMessage::Done(Box::new(sample())));
    assert!(done);
    assert!(matches!(m, Message::WalkDone(_)));
}

#[test]
fn unknown_extension_counts_until_unticked() {
    let mut app = loaded();
    app.update(Message::ExtensionToggled("zig".to_string(), false));
    assert_eq!(points(&app), vec![(10, 1_000), (11, 2_300)]);
    assert_eq!(app.enabled.len(), 4);
}

#[test]
fn progress_line_reads_walking_processed_of_total() {
    let mut app = App::default();
    app.update(Message::FolderPicked(Some("/r".to_string())));
    app.update(Message::WalkProgress { processed: 412, total: 1893 });
    assert_eq!(app.status_line().as_deref(), Some("Walking 412/1893"));
}

#[test]
fn status_agrees_with_data_along_a_run() {
    let mut app = App::default();
    let msgs = vec![
        Message::WorkerReady,
        Message::FolderPicked(Some("/r".to_string())),
        Message::WalkProgress { processed: 1, total: 2 },
        Message::WalkDone(Box::new(sample())),
        Message::ExtensionToggled("rs".to_string(), false),
        Message::FolderPicked(Some("/s".to_string())),
        Message::WalkFailed("boom".to_string()),
    ];
    for m in msgs {
        app.update(m);
        match app.status {
            Status::Loaded => assert!(app.repo_data.is_some()),
            Status::Loading { .. } => assert!(app.repo_data.is_none()),
            Status::Idle => assert!(app.current_path.is_none() && app.repo_data.is_none()),
            Status::Error(_) => {}
        }
    }
}

#[test]
fn sidebar_lists_only_the_latest_snapshots_extensions() {
    let data = assemble_repo_data(
        vec![snap(1, &[("md", 40), ("rs", 5)]), snap(2, &[("rs", 2_500)])],
        vec![(1, 1), (2, 1)],
    );
    let mut app = App::default();
    app.update(Message::WalkDone(Box::new(data)));
    assert_eq!(app.enabled.len(), 2);
    let rows: Vec<(String, bool, String)> =
        app.sidebar_rows().into_iter().map(|r| (r.extension, r.enabled, r.label)).collect();
    assert_eq!(rows, vec![("rs".to_string(), true, ".rs   2.5k".to_string())]);
    app.update(Message::ExtensionToggled("rs".to_string(), false));
    assert!(!app.sidebar_rows()[0].enabled);
}

#[test]
fn turning_extensions_on_never_lowers_totals() {
    let mut app = loaded();
    app.update(Message::DeselectAllExtensions);
    let mut prev = points(&app);
    for ext in ["md", "json", "rs"] {
        app.update(Message::ExtensionToggled(ext.to_string(), true));
        let now = points(&app);
        for (a, b) in prev.iter().zip(now.iter()) {
            assert_eq!(a.0, b.0);
            assert!(a.1 <= b.1);
        }
        prev = now;
    }
}
