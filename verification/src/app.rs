//! The application's state and how each message changes it.
use crate::chart::LocChart;
use crate::git_walk::{count_total, WalkMessage};
use crate::keyed::{
    ascending, has_key, keys_of, lemma_value_at, map_fill, map_get, map_put, value_of, views_of,
};
use crate::rounding::{tenths_of_quotient, tenths_of_quotient_exec};
use crate::text::{decimal, digit_char, digit_str, push_decimal};
use crate::types::{FileStats, RepoData};
use vstd::prelude::*;
use vstd::string::*;

verus! {

/// `t` tenths written with one decimal: `t / 10`, a point, then `t % 10`.
pub open spec fn one_decimal(t: nat) -> Seq<char> {
    decimal(t / 10) + seq!['.', digit_char(t % 10)]
}

/// A count as the sidebar and the chart's axis show it: below a thousand in full,
/// then in thousands (`k`) or millions (`M`) with one decimal, rounded as
/// `format!("{:.1}", v as f64 / 1000.0)` rounds.
pub open spec fn short_count_text(v: nat) -> Seq<char> {
    if v >= 1_000_000 {
        one_decimal(tenths_of_quotient(v, 1_000_000)).push('M')
    } else if v >= 1_000 {
        one_decimal(tenths_of_quotient(v, 1_000)).push('k')
    } else {
        decimal(v)
    }
}

fn push_one_decimal(out: &mut String, t: u128)
    ensures
        final(out)@ == old(out)@ + one_decimal(t as nat),
{
    push_decimal(out, t / 10);
    proof {
        reveal_strlit(".");
    }
    out.append(".");
    out.append(digit_str((t % 10) as u64));
}

/// A count in short form: `999`, `1.2k`, `3.4M`.
pub fn short_count(v: u64) -> (s: String)
    ensures
        s@ == short_count_text(v as nat),
{
    let mut s = String::new();
    if v >= 1_000_000 {
        let t = tenths_of_quotient_exec(v, 1_000_000);
        push_one_decimal(&mut s, t);
        proof {
            reveal_strlit("M");
        }
        s.append("M");
    } else if v >= 1_000 {
        let t = tenths_of_quotient_exec(v, 1_000);
        push_one_decimal(&mut s, t);
        proof {
            reveal_strlit("k");
        }
        s.append("k");
    } else {
        push_decimal(&mut s, v as u128);
    }
    s
}

/// Which chart the window shows.
#[derive(Debug, Clone, Copy, PartialEq, Eq, Structural)]
pub enum ViewKind {
    Loc,
    Commits,
}

/// Whether extension bucket `ext` counts in the lines-of-code chart: as its
/// checkbox says, and yes for a bucket without checkbox.
pub open spec fn counts_in_chart(enabled: Seq<(String, bool)>, ext: Seq<char>) -> bool {
    match value_of(enabled, ext) {
        Some(on) => on,
        None => true,
    }
}

/// The code lines of all files.
pub open spec fn all_lines(files: Seq<FileStats>) -> nat
    decreases files.len(),
{
    if files.len() == 0 {
        0
    } else {
        all_lines(files.drop_last()) + (files.last().code_lines as nat)
    }
}

/// The code lines of the files whose bucket counts in the chart.
pub open spec fn enabled_lines(files: Seq<FileStats>, enabled: Seq<(String, bool)>) -> nat
    decreases files.len(),
{
    if files.len() == 0 {
        0
    } else {
        enabled_lines(files.drop_last(), enabled) + if counts_in_chart(
            enabled,
            files.last().extension@,
        ) {
            files.last().code_lines as nat
        } else {
            0nat
        }
    }
}

/// The totals of a walk's result fit the chart's counters: each day's code lines,
/// and all commits together, are at most `u64::MAX`.
pub open spec fn totals_fit(data: RepoData) -> bool {
    &&& forall|i: int|
        0 <= i < data.snapshots@.len() ==> all_lines(#[trigger] data.snapshots@[i].files@)
            <= u64::MAX
    &&& count_total(data.commits_per_day@) <= u64::MAX
}

/// The lines-of-code chart: for each snapshot, its day and the code lines of the
/// buckets that count.
pub open spec fn loc_points(data: RepoData, enabled: Seq<(String, bool)>) -> Seq<(i32, u64)> {
    Seq::new(
        data.snapshots@.len(),
        |i: int|
            (
                data.snapshots@[i].date,
                enabled_lines(data.snapshots@[i].files@, enabled) as u64,
            ),
    )
}

/// The commits chart: for each day with commits, the number of commits up to and
/// including that day.
pub open spec fn commit_points(data: RepoData) -> Seq<(i32, u64)> {
    Seq::new(
        data.commits_per_day@.len(),
        |i: int|
            (
                data.commits_per_day@[i].0,
                count_total(data.commits_per_day@.take(i + 1)) as u64,
            ),
    )
}

/// The points of the chart of `view`; none without a walk's result.
pub open spec fn chart_points(
    view: ViewKind,
    data: Option<RepoData>,
    enabled: Seq<(String, bool)>,
) -> Seq<(i32, u64)> {
    match data {
        None => Seq::empty(),
        Some(d) => match view {
            ViewKind::Loc => loc_points(d, enabled),
            ViewKind::Commits => commit_points(d),
        },
    }
}

/// The unit of the values of the chart of `view`.
pub open spec fn unit_of(view: ViewKind) -> Seq<char> {
    match view {
        ViewKind::Loc => seq!['L', 'O', 'C'],
        ViewKind::Commits => seq!['c', 'o', 'm', 'm', 'i', 't', 's'],
    }
}

/// `chart` is the chart of `view` for the given result and checkboxes: none where
/// there is no point to draw.
pub open spec fn chart_is(
    chart: Option<LocChart>,
    view: ViewKind,
    data: Option<RepoData>,
    enabled: Seq<(String, bool)>,
) -> bool {
    let pts = chart_points(view, data, enabled);
    if pts.len() == 0 {
        chart is None
    } else {
        chart matches Some(c) && c.points@ == pts && c.unit_label@ == unit_of(view)
    }
}

proof fn lemma_all_lines_prefix(files: Seq<FileStats>, k: int)
    requires
        0 <= k <= files.len(),
    ensures
        all_lines(files.take(k)) <= all_lines(files),
    decreases files.len() - k,
{
    if k < files.len() {
        lemma_all_lines_prefix(files, k + 1);
        assert(files.take(k + 1).drop_last() =~= files.take(k));
    } else {
        assert(files.take(k) =~= files);
    }
}

/// The lines that count never exceed all lines.
pub proof fn lemma_enabled_within_all(files: Seq<FileStats>, enabled: Seq<(String, bool)>)
    ensures
        enabled_lines(files, enabled) <= all_lines(files),
    decreases files.len(),
{
    if files.len() > 0 {
        lemma_enabled_within_all(files.drop_last(), enabled);
    }
}

proof fn lemma_count_total_prefix(counts: Seq<(i32, u32)>, k: int)
    requires
        0 <= k <= counts.len(),
    ensures
        count_total(counts.take(k)) <= count_total(counts),
    decreases counts.len() - k,
{
    if k < counts.len() {
        lemma_count_total_prefix(counts, k + 1);
        assert(counts.take(k + 1).drop_last() =~= counts.take(k));
    } else {
        assert(counts.take(k) =~= counts);
    }
}

/// Whether the totals of a walk's result fit the chart's counters.
pub fn check_totals_fit(data: &RepoData) -> (r: bool)
    ensures
        r == totals_fit(*data),
{
    let n = data.snapshots.len();
    for i in 0..n
        invariant
            n == data.snapshots@.len(),
            forall|x: int| 0 <= x < i ==> all_lines(#[trigger] data.snapshots@[x].files@) <= u64::MAX,
    {
        let files = &data.snapshots[i].files;
        let mut total: u64 = 0;
        let m = files.len();
        for j in 0..m
            invariant
                n == data.snapshots@.len(),
                i < n,
                files@ == data.snapshots@[i as int].files@,
                m == files@.len(),
                total == all_lines(files@.take(j as int)),
        {
            assert(files@.take(j + 1).drop_last() =~= files@.take(j as int));
            if files[j].code_lines > u64::MAX - total {
                proof {
                    lemma_all_lines_prefix(files@, j + 1);
                    assert(all_lines(data.snapshots@[i as int].files@) > u64::MAX);
                }
                return false;
            }
            total = total + files[j].code_lines;
        }
        assert(files@.take(m as int) =~= files@);
    }
    let cpd = &data.commits_per_day;
    let mut total: u64 = 0;
    let m = cpd.len();
    for j in 0..m
        invariant
            cpd@ == data.commits_per_day@,
            m == cpd@.len(),
            total == count_total(cpd@.take(j as int)),
    {
        assert(cpd@.take(j + 1).drop_last() =~= cpd@.take(j as int));
        if cpd[j].1 as u64 > u64::MAX - total {
            proof {
                lemma_count_total_prefix(cpd@, j + 1);
                assert(count_total(cpd@.take(j + 1)) == total + cpd@[j as int].1);
            }
            return false;
        }
        total = total + cpd[j].1 as u64;
    }
    assert(cpd@.take(m as int) =~= cpd@);
    true
}

/// The code lines of the files whose bucket counts in the chart.
fn enabled_total(files: &Vec<FileStats>, enabled: &Vec<(String, bool)>) -> (t: u64)
    requires
        ascending(keys_of(enabled@)),
        all_lines(files@) <= u64::MAX,
    ensures
        t == enabled_lines(files@, enabled@),
{
    let mut total: u64 = 0;
    let m = files.len();
    for j in 0..m
        invariant
            m == files@.len(),
            ascending(keys_of(enabled@)),
            all_lines(files@) <= u64::MAX,
            total == enabled_lines(files@.take(j as int), enabled@),
    {
        assert(files@.take(j + 1).drop_last() =~= files@.take(j as int));
        proof {
            lemma_enabled_within_all(files@.take(j + 1), enabled@);
            lemma_all_lines_prefix(files@, j + 1);
        }
        let on = match map_get(enabled, &files[j].extension) {
            Some(b) => b,
            None => true,
        };
        if on {
            total = total + files[j].code_lines;
        }
    }
    assert(files@.take(m as int) =~= files@);
    total
}

/// The lines-of-code chart's points.
pub fn loc_chart_points(data: &Option<RepoData>, enabled: &Vec<(String, bool)>) -> (pts: Vec<(i32, u64)>)
    requires
        ascending(keys_of(enabled@)),
        *data matches Some(d) ==> totals_fit(d),
    ensures
        pts@ == chart_points(ViewKind::Loc, *data, enabled@),
{
    match data {
        None => Vec::new(),
        Some(d) => {
            let mut pts: Vec<(i32, u64)> = Vec::new();
            let n = d.snapshots.len();
            for i in 0..n
                invariant
                    n == d.snapshots@.len(),
                    ascending(keys_of(enabled@)),
                    totals_fit(*d),
                    pts@ =~= loc_points(*d, enabled@).take(i as int),
            {
                let t = enabled_total(&d.snapshots[i].files, enabled);
                pts.push((d.snapshots[i].date, t));
            }
            pts
        },
    }
}

/// The commits chart's points: commits so far, day by day.
pub fn commits_chart_points(data: &Option<RepoData>) -> (pts: Vec<(i32, u64)>)
    requires
        *data matches Some(d) ==> totals_fit(d),
    ensures
        pts@ == chart_points(ViewKind::Commits, *data, Seq::empty()),
{
    match data {
        None => Vec::new(),
        Some(d) => {
            let mut pts: Vec<(i32, u64)> = Vec::new();
            let mut running: u64 = 0;
            let n = d.commits_per_day.len();
            for i in 0..n
                invariant
                    n == d.commits_per_day@.len(),
                    totals_fit(*d),
                    running == count_total(d.commits_per_day@.take(i as int)),
                    pts@ =~= commit_points(*d).take(i as int),
            {
                assert(d.commits_per_day@.take(i + 1).drop_last() =~= d.commits_per_day@.take(
                    i as int,
                ));
                proof {
                    lemma_count_total_prefix(d.commits_per_day@, i + 1);
                }
                running = running + d.commits_per_day[i].1 as u64;
                pts.push((d.commits_per_day[i].0, running));
            }
            pts
        },
    }
}

/// The chart of `view`, or none where it has no point.
pub fn build_chart(view: ViewKind, data: &Option<RepoData>, enabled: &Vec<(String, bool)>) -> (chart: Option<LocChart>)
    requires
        ascending(keys_of(enabled@)),
        *data matches Some(d) ==> totals_fit(d),
    ensures
        chart_is(chart, view, *data, enabled@),
{
    let pts = match view {
        ViewKind::Loc => loc_chart_points(data, enabled),
        ViewKind::Commits => commits_chart_points(data),
    };
    assert(pts@ == chart_points(view, *data, enabled@));
    if pts.len() == 0 {
        None
    } else {
        let unit = match view {
            ViewKind::Loc => "LOC",
            ViewKind::Commits => "commits",
        };
        proof {
            reveal_strlit("LOC");
            reveal_strlit("commits");
        }
        let label = String::from_str(unit);
        assert(label@ == unit_of(view));
        let c = LocChart::labelled(pts, label);
        assert(c.points@ == chart_points(view, *data, enabled@));
        Some(c)
    }
}

/// Where the window is in loading a repository.
#[derive(Debug)]
pub enum Status {
    Idle,
    Loading { processed: usize, total: usize },
    Loaded,
    Error(String),
}

/// What the user or the history walk tells the application.
#[derive(Debug, Clone)]
pub enum Message {
    OpenClicked,
    FolderPicked(Option<String>),
    WorkerReady,
    WalkProgress { processed: usize, total: usize },
    WalkDone(Box<RepoData>),
    WalkFailed(String),
    ExtensionToggled(String, bool),
    SelectAllExtensions,
    DeselectAllExtensions,
    ViewSelected(ViewKind),
}

/// What the application asks its surroundings to do after a message.
#[derive(Debug)]
pub enum Command {
    Nothing,
    /// Show a dialog to pick a repository folder.
    PickFolder,
    /// Walk the history of the repository at this path.
    StartWalk(String),
}

/// The state of the window.
#[derive(Debug)]
pub struct App {
    pub status: Status,
    pub current_path: Option<String>,
    pub repo_data: Option<RepoData>,
    /// The extension checkboxes, in ascending order of extension.
    pub enabled: Vec<(String, bool)>,
    /// A history walker is ready to take a path.
    pub worker_ready: bool,
    pub chart: Option<LocChart>,
    pub view: ViewKind,
}

impl App {
    /// The checkboxes are in ascending order, and the result's totals fit.
    pub open spec fn wf(&self) -> bool {
        &&& ascending(keys_of(self.enabled@))
        &&& self.repo_data matches Some(d) ==> totals_fit(d)
    }
}

/// The checkbox values after `WalkDone(data)`: every extension of the result, ticked.
pub open spec fn all_ticked(enabled: Seq<(String, bool)>, exts: Seq<String>) -> bool {
    forall|x: Seq<char>|
        #![trigger value_of(enabled, x)]
        value_of(enabled, x) == if views_of(exts).contains(x) {
            Some(true)
        } else {
            None
        }
}

/// Every checkbox of `pre` set to `on`, and no other.
pub open spec fn all_set(post: Seq<(String, bool)>, pre: Seq<(String, bool)>, on: bool) -> bool {
    &&& keys_of(post) == keys_of(pre)
    &&& forall|x: Seq<char>|
        #![trigger value_of(post, x)]
        value_of(post, x) == if has_key(pre, x) {
            Some(on)
        } else {
            None
        }
}

/// What `update` does: the state after `msg` and the command it gives.
pub open spec fn update_spec(pre: App, msg: Message, post: App, cmd: Command) -> bool {
    match msg {
        Message::OpenClicked => post == pre && cmd is PickFolder,
        Message::FolderPicked(None) => post == pre && cmd is Nothing,
        Message::FolderPicked(Some(p)) => {
            &&& post.status == (Status::Loading { processed: 0, total: 0 })
            &&& post.current_path == Some(p)
            &&& post.repo_data is None
            &&& post.enabled@.len() == 0
            &&& post.worker_ready == pre.worker_ready
            &&& post.chart == pre.chart
            &&& post.view == pre.view
            &&& if pre.worker_ready {
                cmd == Command::StartWalk(p)
            } else {
                cmd is Nothing
            }
        },
        Message::WorkerReady => {
            &&& post.worker_ready
            &&& post.status == pre.status
            &&& post.current_path == pre.current_path
            &&& post.repo_data == pre.repo_data
            &&& post.enabled == pre.enabled
            &&& post.chart == pre.chart
            &&& post.view == pre.view
            &&& cmd is Nothing
        },
        Message::WalkProgress { processed, total } => {
            &&& post.status == if pre.status is Loading {
                Status::Loading { processed, total }
            } else {
                pre.status
            }
            &&& post.current_path == pre.current_path
            &&& post.repo_data == pre.repo_data
            &&& post.enabled == pre.enabled
            &&& post.worker_ready == pre.worker_ready
            &&& post.chart == pre.chart
            &&& post.view == pre.view
            &&& cmd is Nothing
        },
        Message::WalkDone(d) => {
            &&& post.status is Loaded
            &&& post.current_path == pre.current_path
            &&& post.repo_data == Some(*d)
            &&& ascending(keys_of(post.enabled@))
            &&& all_ticked(post.enabled@, d.all_extensions@)
            &&& post.worker_ready == pre.worker_ready
            &&& chart_is(post.chart, pre.view, Some(*d), post.enabled@)
            &&& post.view == pre.view
            &&& cmd is Nothing
        },
        Message::WalkFailed(e) => {
            &&& post.status == Status::Error(e)
            &&& post.current_path == pre.current_path
            &&& post.repo_data == pre.repo_data
            &&& post.enabled == pre.enabled
            &&& post.worker_ready == pre.worker_ready
            &&& post.chart is None
            &&& post.view == pre.view
            &&& cmd is Nothing
        },
        Message::ExtensionToggled(ext, on) => {
            &&& post.status == pre.status
            &&& post.current_path == pre.current_path
            &&& post.repo_data == pre.repo_data
            &&& ascending(keys_of(post.enabled@))
            &&& forall|x: Seq<char>|
                #![trigger value_of(post.enabled@, x)]
                value_of(post.enabled@, x) == if x == ext@ {
                    Some(on)
                } else {
                    value_of(pre.enabled@, x)
                }
            &&& post.worker_ready == pre.worker_ready
            &&& chart_is(post.chart, pre.view, pre.repo_data, post.enabled@)
            &&& post.view == pre.view
            &&& cmd is Nothing
        },
        Message::SelectAllExtensions => {
            &&& post.status == pre.status
            &&& post.current_path == pre.current_path
            &&& post.repo_data == pre.repo_data
            &&& all_set(post.enabled@, pre.enabled@, true)
            &&& post.worker_ready == pre.worker_ready
            &&& chart_is(post.chart, pre.view, pre.repo_data, post.enabled@)
            &&& post.view == pre.view
            &&& cmd is Nothing
        },
        Message::DeselectAllExtensions => {
            &&& post.status == pre.status
            &&& post.current_path == pre.current_path
            &&& post.repo_data == pre.repo_data
            &&& all_set(post.enabled@, pre.enabled@, false)
            &&& post.worker_ready == pre.worker_ready
            &&& chart_is(post.chart, pre.view, pre.repo_data, post.enabled@)
            &&& post.view == pre.view
            &&& cmd is Nothing
        },
        Message::ViewSelected(v) => if v == pre.view {
            post == pre && cmd is Nothing
        } else {
            &&& post.status == pre.status
            &&& post.current_path == pre.current_path
            &&& post.repo_data == pre.repo_data
            &&& post.enabled == pre.enabled
            &&& post.worker_ready == pre.worker_ready
            &&& chart_is(post.chart, v, pre.repo_data, pre.enabled@)
            &&& post.view == v
            &&& cmd is Nothing
        },
    }
}

/// The checkboxes for a walk's extensions: each one ticked.
fn ticked_boxes(exts: &Vec<String>) -> (enabled: Vec<(String, bool)>)
    ensures
        ascending(keys_of(enabled@)),
        all_ticked(enabled@, exts@),
{
    let mut enabled: Vec<(String, bool)> = Vec::new();
    let n = exts.len();
    for i in 0..n
        invariant
            n == exts@.len(),
            ascending(keys_of(enabled@)),
            all_ticked(enabled@, exts@.take(i as int)),
    {
        let ghost pre = enabled@;
        map_put(&mut enabled, exts[i].clone(), true);
        assert forall|x: Seq<char>| #![trigger value_of(enabled@, x)] value_of(enabled@, x) == if views_of(
            exts@.take(i + 1),
        ).contains(x) {
            Some(true)
        } else {
            None
        } by {
            let a = views_of(exts@.take(i as int));
            let b = views_of(exts@.take(i + 1));
            assert(b =~= a.push(exts@[i as int]@));
            if a.contains(x) {
                let j = choose|j: int| 0 <= j < a.len() && a[j] == x;
                assert(b[j] == x);
            }
            if b.contains(x) && x != exts@[i as int]@ {
                let j = choose|j: int| 0 <= j < b.len() && b[j] == x;
                assert(a[j] == x);
            }
            if x == exts@[i as int]@ {
                assert(b[i as int] == x);
            }
        }
    }
    assert(exts@.take(n as int) =~= exts@);
    enabled
}

impl App {
    /// The chart for the current view, result and checkboxes.
    fn rebuild_chart(&mut self)
        requires
            old(self).wf(),
        ensures
            final(self).wf(),
            final(self).status == old(self).status,
            final(self).current_path == old(self).current_path,
            final(self).repo_data == old(self).repo_data,
            final(self).enabled == old(self).enabled,
            final(self).worker_ready == old(self).worker_ready,
            final(self).view == old(self).view,
            chart_is(final(self).chart, old(self).view, old(self).repo_data, old(self).enabled@),
    {
        self.chart = build_chart(self.view, &self.repo_data, &self.enabled);
    }

    /// Applies a message to the state and says what to do next.
    pub fn update(&mut self, msg: Message) -> (cmd: Command)
        requires
            old(self).wf(),
            msg matches Message::WalkDone(d) ==> totals_fit(*d),
        ensures
            final(self).wf(),
            update_spec(*old(self), msg, *final(self), cmd),
    {
        match msg {
            Message::OpenClicked => Command::PickFolder,
            Message::FolderPicked(None) => Command::Nothing,
            Message::FolderPicked(Some(path)) => {
                self.status = Status::Loading { processed: 0, total: 0 };
                self.repo_data = None;
                self.enabled = Vec::new();
                if self.worker_ready {
                    self.current_path = Some(path.clone());
                    Command::StartWalk(path)
                } else {
                    self.current_path = Some(path);
                    Command::Nothing
                }
            },
            Message::WorkerReady => {
                self.worker_ready = true;
                Command::Nothing
            },
            Message::WalkProgress { processed, total } => {
                if let Status::Loading { .. } = self.status {
                    self.status = Status::Loading { processed, total };
                }
                Command::Nothing
            },
            Message::WalkDone(data) => {
                self.enabled = ticked_boxes(&data.all_extensions);
                self.repo_data = Some(*data);
                self.status = Status::Loaded;
                self.rebuild_chart();
                Command::Nothing
            },
            Message::WalkFailed(err) => {
                self.status = Status::Error(err);
                self.chart = None;
                Command::Nothing
            },
            Message::ExtensionToggled(ext, on) => {
                map_put(&mut self.enabled, ext, on);
                self.rebuild_chart();
                Command::Nothing
            },
            Message::SelectAllExtensions => {
                map_fill(&mut self.enabled, true);
                self.rebuild_chart();
                Command::Nothing
            },
            Message::DeselectAllExtensions => {
                map_fill(&mut self.enabled, false);
                self.rebuild_chart();
                Command::Nothing
            },
            Message::ViewSelected(view) => {
                if self.view != view {
                    self.view = view;
                    self.rebuild_chart();
                }
                Command::Nothing
            },
        }
    }
}

impl Default for App {
    /// The window before any repository is opened.
    fn default() -> (a: App)
        ensures
            a.wf(),
            a.status is Idle,
            a.current_path is None,
            a.repo_data is None,
            a.enabled@.len() == 0,
            !a.worker_ready,
            a.chart is None,
            a.view == ViewKind::Loc,
    {
        App {
            status: Status::Idle,
            current_path: None,
            repo_data: None,
            enabled: Vec::new(),
            worker_ready: false,
            chart: None,
            view: ViewKind::Loc,
        }
    }
}

impl Message {
    /// The message a history walk's report becomes, and whether it is the walk's last.
    pub fn from_walk(w: WalkMessage) -> (r: (Message, bool))
        ensures
            match w {
                WalkMessage::Progress { processed, total } => r.0 == (Message::WalkProgress {
                    processed,
                    total,
                }) && !r.1,
                WalkMessage::Done(d) => r.0 == Message::WalkDone(d) && r.1,
                WalkMessage::Failed(e) => r.0 == Message::WalkFailed(e) && r.1,
            },
    {
        match w {
            WalkMessage::Progress { processed, total } => (
                Message::WalkProgress { processed, total },
                false,
            ),
            WalkMessage::Done(d) => (Message::WalkDone(d), true),
            WalkMessage::Failed(e) => (Message::WalkFailed(e), true),
        }
    }
}

/// The code lines of the files of bucket `ext`.
pub open spec fn ext_lines(files: Seq<FileStats>, ext: Seq<char>) -> nat
    decreases files.len(),
{
    if files.len() == 0 {
        0
    } else {
        ext_lines(files.drop_last(), ext) + if files.last().extension@ == ext {
            files.last().code_lines as nat
        } else {
            0nat
        }
    }
}

/// Some file is in bucket `ext`.
pub open spec fn has_file_ext(files: Seq<FileStats>, ext: Seq<char>) -> bool {
    exists|j: int| 0 <= j < files.len() && #[trigger] files[j].extension@ == ext
}

/// `m` maps each bucket of `files` to its code lines.
pub open spec fn lines_by_ext(m: Seq<(String, u64)>, files: Seq<FileStats>) -> bool {
    forall|x: Seq<char>|
        #![trigger value_of(m, x)]
        value_of(m, x) == if has_file_ext(files, x) {
            Some(ext_lines(files, x) as u64)
        } else {
            None
        }
}

/// The code lines of bucket `ext` in the latest snapshot; 0 where there is none.
pub open spec fn latest_lines(data: Option<RepoData>, ext: Seq<char>) -> nat {
    match data {
        Some(d) => if d.snapshots@.len() > 0 {
            ext_lines(d.snapshots@.last().files@, ext)
        } else {
            0
        },
        None => 0,
    }
}

proof fn lemma_ext_lines_within_all(files: Seq<FileStats>, ext: Seq<char>)
    ensures
        ext_lines(files, ext) <= all_lines(files),
    decreases files.len(),
{
    if files.len() > 0 {
        lemma_ext_lines_within_all(files.drop_last(), ext);
    }
}

/// One row of the extension list: the checkbox of a bucket and its label.
#[derive(Debug)]
pub struct ExtensionRow {
    pub extension: String,
    pub enabled: bool,
    pub label: String,
}

impl App {
    /// The code lines per bucket of the latest snapshot, in ascending order of bucket.
    pub fn latest_loc_per_extension(&self) -> (m: Vec<(String, u64)>)
        requires
            self.wf(),
        ensures
            ascending(keys_of(m@)),
            match self.repo_data {
                Some(d) => if d.snapshots@.len() > 0 {
                    lines_by_ext(m@, d.snapshots@.last().files@)
                } else {
                    m@.len() == 0
                },
                None => m@.len() == 0,
            },
    {
        let mut out: Vec<(String, u64)> = Vec::new();
        match &self.repo_data {
            None => {},
            Some(data) => {
                let n = data.snapshots.len();
                if n > 0 {
                    let files = &data.snapshots[n - 1].files;
                    let m = files.len();
                    assert(all_lines(files@) <= u64::MAX);
                    for j in 0..m
                        invariant
                            m == files@.len(),
                            all_lines(files@) <= u64::MAX,
                            ascending(keys_of(out@)),
                            lines_by_ext(out@, files@.take(j as int)),
                    {
                        let ghost pre = files@.take(j as int);
                        let ghost post = files@.take(j + 1);
                        let ghost old_out = out@;
                        assert(post.drop_last() =~= pre);
                        let ext = &files[j].extension;
                        let cur = match map_get(&out, ext) {
                            Some(c) => c,
                            None => 0,
                        };
                        proof {
                            lemma_ext_lines_within_all(post, ext@);
                            lemma_all_lines_prefix(files@, j + 1);
                            if has_file_ext(pre, ext@) {
                            } else {
                                lemma_ext_lines_absent(pre, ext@);
                            }
                        }
                        map_put(&mut out, ext.clone(), cur + files[j].code_lines);
                        assert forall|x: Seq<char>| #![trigger value_of(out@, x)] value_of(out@, x)
                            == if has_file_ext(post, x) {
                            Some(ext_lines(post, x) as u64)
                        } else {
                            None
                        } by {
                            if x == ext@ {
                                assert(post[j as int].extension@ == x);
                            } else {
                                if has_file_ext(post, x) {
                                    let jj = choose|jj: int| 0 <= jj < post.len() && #[trigger] post[jj].extension@ == x;
                                    assert(pre[jj].extension@ == x);
                                }
                                if has_file_ext(pre, x) {
                                    let jj = choose|jj: int| 0 <= jj < pre.len() && #[trigger] pre[jj].extension@ == x;
                                    assert(post[jj].extension@ == x);
                                }
                            }
                        }
                    }
                    assert(files@.take(m as int) =~= files@);
                }
            },
        }
        out
    }
}

proof fn lemma_ext_lines_absent(files: Seq<FileStats>, ext: Seq<char>)
    requires
        !has_file_ext(files, ext),
    ensures
        ext_lines(files, ext) == 0,
    decreases files.len(),
{
    if files.len() > 0 {
        assert(!has_file_ext(files.drop_last(), ext)) by {
            if has_file_ext(files.drop_last(), ext) {
                let j = choose|j: int| 0 <= j < files.len() - 1 && #[trigger] files.drop_last()[j].extension@ == ext;
                assert(files[j].extension@ == ext);
            }
        }
        lemma_ext_lines_absent(files.drop_last(), ext);
        if files.last().extension@ == ext {
            assert(files[files.len() - 1].extension@ == ext);
        }
    }
}

/// The window title for the opened repository, if any.
pub open spec fn title_text(path: Option<String>) -> Seq<char> {
    match path {
        Some(p) => "gitplot \u{2014} "@ + p@,
        None => "gitplot"@,
    }
}

/// The status line for a state; `None` where nothing is shown.
pub open spec fn status_text(status: Status, data: Option<RepoData>) -> Option<Seq<char>> {
    match status {
        Status::Idle => None,
        Status::Loading { processed, total } => if total == 0 {
            Some("Walking history\u{2026}"@)
        } else {
            Some("Walking "@ + decimal(processed as nat) + "/"@ + decimal(total as nat))
        },
        Status::Loaded => Some(
            "Loaded \u{2014} "@ + decimal(
                match data {
                    Some(d) => d.snapshots@.len(),
                    None => 0,
                },
            ) + " day(s)"@,
        ),
        Status::Error(e) => Some("Error: "@ + e@),
    }
}

/// The label of a bucket's checkbox: the extension after a dot, then its code
/// lines in the latest snapshot in short form.
pub open spec fn row_label(ext: Seq<char>, lines: nat) -> Seq<char> {
    "."@ + ext + "   "@ + short_count_text(lines)
}

impl App {
    /// The window title: the program's name and the opened repository's path.
    pub fn title(&self) -> (t: String)
        ensures
            t@ == title_text(self.current_path),
    {
        match &self.current_path {
            Some(p) => {
                let mut t = String::from_str("gitplot \u{2014} ");
                t.append(p.as_str());
                t
            },
            None => String::from_str("gitplot"),
        }
    }

    /// The status line under the top bar; `None` before a repository is opened.
    pub fn status_line(&self) -> (s: Option<String>)
        ensures
            s matches Some(x) ==> status_text(self.status, self.repo_data) == Some(x@),
            s is None ==> status_text(self.status, self.repo_data) is None,
    {
        match &self.status {
            Status::Idle => None,
            Status::Loading { processed, total } => {
                if *total == 0 {
                    Some(String::from_str("Walking history\u{2026}"))
                } else {
                    let mut s = String::from_str("Walking ");
                    push_decimal(&mut s, *processed as u128);
                    s.append("/");
                    push_decimal(&mut s, *total as u128);
                    Some(s)
                }
            },
            Status::Loaded => {
                let n = match &self.repo_data {
                    Some(d) => d.snapshots.len(),
                    None => 0,
                };
                let mut s = String::from_str("Loaded \u{2014} ");
                push_decimal(&mut s, n as u128);
                s.append(" day(s)");
                Some(s)
            },
            Status::Error(e) => {
                let mut s = String::from_str("Error: ");
                s.append(e.as_str());
                Some(s)
            },
        }
    }

    /// The chart is on screen: a repository is loaded and its chart has points.
    pub fn shows_chart(&self) -> (b: bool)
        ensures
            b == (self.status is Loaded && self.repo_data is Some && self.chart is Some),
    {
        match (&self.status, &self.repo_data, &self.chart) {
            (Status::Loaded, Some(_), Some(_)) => true,
            _ => false,
        }
    }

    /// The extension list is on screen beside the chart (in the lines-of-code view).
    pub fn shows_extension_list(&self) -> (b: bool)
        ensures
            b == (self.shows_chart_spec() && self.view == ViewKind::Loc),
    {
        self.shows_chart() && self.view == ViewKind::Loc
    }

    /// The chart is on screen.
    pub open spec fn shows_chart_spec(&self) -> bool {
        self.status is Loaded && self.repo_data is Some && self.chart is Some
    }

    /// The rows of the extension list: one for each extension found in the latest
    /// snapshot, in ascending order, ticked as its checkbox says (ticked where it has
    /// none), and labelled with the extension and its code lines there.
    pub fn sidebar_rows(&self) -> (rows: Vec<ExtensionRow>)
        requires
            self.wf(),
        ensures
            ascending(row_keys(rows@)),
            forall|x: Seq<char>| row_keys(rows@).contains(x) <==> in_latest(self.repo_data, x),
            forall|i: int|
                #![trigger rows@[i]]
                0 <= i < rows@.len() ==> rows@[i].enabled == counts_in_chart(
                    self.enabled@,
                    rows@[i].extension@,
                ) && rows@[i].label@ == row_label(
                    rows@[i].extension@,
                    latest_lines(self.repo_data, rows@[i].extension@),
                ),
    {
        let latest = self.latest_loc_per_extension();
        let mut rows: Vec<ExtensionRow> = Vec::new();
        let n = latest.len();
        proof {
            if self.repo_data is Some && self.repo_data->0.snapshots@.len() > 0 {
                let d = self.repo_data->0;
                assert(all_lines(d.snapshots@[d.snapshots@.len() - 1].files@) <= u64::MAX);
            }
        }
        for i in 0..n
            invariant
                n == latest@.len(),
                self.wf(),
                ascending(keys_of(latest@)),
                match self.repo_data {
                    Some(d) => if d.snapshots@.len() > 0 {
                        lines_by_ext(latest@, d.snapshots@.last().files@)
                            && all_lines(d.snapshots@.last().files@) <= u64::MAX
                    } else {
                        latest@.len() == 0
                    },
                    None => latest@.len() == 0,
                },
                rows@.len() == i,
                forall|k: int|
                    #![trigger rows@[k]]
                    0 <= k < i ==> rows@[k].extension@ == latest@[k].0@ && rows@[k].enabled
                        == counts_in_chart(self.enabled@, rows@[k].extension@) && rows@[k].label@
                        == row_label(
                        rows@[k].extension@,
                        latest_lines(self.repo_data, rows@[k].extension@),
                    ),
        {
            let ext = &latest[i].0;
            let count = latest[i].1;
            proof {
                let x = ext@;
                lemma_value_at(latest@, i as int);
                let d = self.repo_data->0;
                let f = d.snapshots@.last().files@;
                assert(value_of(latest@, x) == if has_file_ext(f, x) {
                    Some(ext_lines(f, x) as u64)
                } else {
                    None
                });
                lemma_ext_lines_within_all(f, x);
            }
            assert(count == latest_lines(self.repo_data, ext@));
            let on = match map_get(&self.enabled, ext) {
                Some(b) => b,
                None => true,
            };
            let mut label = String::from_str(".");
            label.append(ext.as_str());
            label.append("   ");
            let short = short_count(count);
            label.append(short.as_str());
            rows.push(ExtensionRow { extension: ext.clone(), enabled: on, label });
        }
        proof {
            assert(row_keys(rows@) =~= keys_of(latest@));
            assert forall|x: Seq<char>| row_keys(rows@).contains(x) <==> in_latest(self.repo_data, x) by {
                if row_keys(rows@).contains(x) {
                    let k = choose|k: int| 0 <= k < row_keys(rows@).len() && row_keys(rows@)[k] == x;
                    lemma_value_at(latest@, k);
                    assert(has_key(latest@, x));
                }
                if in_latest(self.repo_data, x) {
                    let d = self.repo_data->0;
                    assert(value_of(latest@, x) is Some);
                    let k = choose|k: int| 0 <= k < latest@.len() && #[trigger] latest@[k].0@ == x;
                    assert(row_keys(rows@)[k] == x);
                }
            }
        }
        rows
    }
}

/// The extensions of the rows, in their order.
pub open spec fn row_keys(rows: Seq<ExtensionRow>) -> Seq<Seq<char>> {
    rows.map_values(|r: ExtensionRow| r.extension@)
}

/// Extension `ext` occurs in the latest snapshot.
pub open spec fn in_latest(data: Option<RepoData>, ext: Seq<char>) -> bool {
    data matches Some(d) && d.snapshots@.len() > 0 && has_file_ext(d.snapshots@.last().files@, ext)
}

/// The lines that count depend only on which buckets count.
pub proof fn lemma_same_choices_same_lines(
    files: Seq<FileStats>,
    e1: Seq<(String, bool)>,
    e2: Seq<(String, bool)>,
)
    requires
        forall|x: Seq<char>| counts_in_chart(e1, x) == counts_in_chart(e2, x),
    ensures
        enabled_lines(files, e1) == enabled_lines(files, e2),
    decreases files.len(),
{
    if files.len() > 0 {
        lemma_same_choices_same_lines(files.drop_last(), e1, e2);
    }
}

/// Where every bucket counts, the lines that count are all lines.
pub proof fn lemma_all_counting_is_all_lines(files: Seq<FileStats>, e: Seq<(String, bool)>)
    requires
        forall|x: Seq<char>| counts_in_chart(e, x),
    ensures
        enabled_lines(files, e) == all_lines(files),
    decreases files.len(),
{
    if files.len() > 0 {
        lemma_all_counting_is_all_lines(files.drop_last(), e);
    }
}

/// Where no bucket of the files counts, no line counts.
pub proof fn lemma_none_counting_is_zero(files: Seq<FileStats>, e: Seq<(String, bool)>)
    requires
        forall|j: int| 0 <= j < files.len() ==> !counts_in_chart(e, #[trigger] files[j].extension@),
    ensures
        enabled_lines(files, e) == 0,
    decreases files.len(),
{
    if files.len() > 0 {
        assert(!counts_in_chart(e, files[files.len() - 1].extension@));
        lemma_none_counting_is_zero(files.drop_last(), e);
    }
}

/// Unticking an extension and ticking it again brings back the chart it had before
/// (where it counted before): toggles only re-aggregate, and walk nothing again.
pub proof fn lemma_toggle_off_on_restores(
    a0: App,
    a1: App,
    a2: App,
    ext: String,
    c1: Command,
    c2: Command,
)
    requires
        update_spec(a0, Message::ExtensionToggled(ext, false), a1, c1),
        update_spec(a1, Message::ExtensionToggled(ext, true), a2, c2),
        counts_in_chart(a0.enabled@, ext@),
    ensures
        a2.repo_data == a0.repo_data,
        a2.view == a0.view,
        c1 is Nothing && c2 is Nothing,
        chart_points(a2.view, a2.repo_data, a2.enabled@) == chart_points(
            a0.view,
            a0.repo_data,
            a0.enabled@,
        ),
        chart_is(a2.chart, a0.view, a0.repo_data, a0.enabled@),
{
    assert forall|x: Seq<char>| counts_in_chart(a2.enabled@, x) == counts_in_chart(a0.enabled@, x) by {
        assert(value_of(a2.enabled@, x) == if x == ext@ {
            Some(true)
        } else {
            value_of(a1.enabled@, x)
        });
        assert(value_of(a1.enabled@, x) == if x == ext@ {
            Some(false)
        } else {
            value_of(a0.enabled@, x)
        });
    }
    match a0.repo_data {
        Some(d) => {
            assert forall|i: int| 0 <= i < d.snapshots@.len() implies enabled_lines(
                #[trigger] d.snapshots@[i].files@,
                a2.enabled@,
            ) == enabled_lines(d.snapshots@[i].files@, a0.enabled@) by {
                lemma_same_choices_same_lines(d.snapshots@[i].files@, a2.enabled@, a0.enabled@);
            }
            assert(loc_points(d, a2.enabled@) =~= loc_points(d, a0.enabled@));
        },
        None => {},
    }
}

/// After "All", the lines-of-code chart shows every day's total code lines.
pub proof fn lemma_select_all_shows_totals(a0: App, a1: App, c: Command, i: int)
    requires
        update_spec(a0, Message::SelectAllExtensions, a1, c),
        a1.repo_data matches Some(d) && 0 <= i < d.snapshots@.len(),
    ensures
        loc_points(a1.repo_data->0, a1.enabled@)[i] == (
            a1.repo_data->0.snapshots@[i].date,
            all_lines(a1.repo_data->0.snapshots@[i].files@) as u64,
        ),
{
    assert forall|x: Seq<char>| counts_in_chart(a1.enabled@, x) by {
        assert(value_of(a1.enabled@, x) == if has_key(a0.enabled@, x) {
            Some(true)
        } else {
            None
        });
    }
    lemma_all_counting_is_all_lines(a1.repo_data->0.snapshots@[i].files@, a1.enabled@);
}

/// After "None", a day whose every bucket has a checkbox shows no code line.
pub proof fn lemma_deselect_all_shows_zero(a0: App, a1: App, c: Command, i: int)
    requires
        update_spec(a0, Message::DeselectAllExtensions, a1, c),
        a1.repo_data matches Some(d) && 0 <= i < d.snapshots@.len(),
        forall|j: int|
            0 <= j < a1.repo_data->0.snapshots@[i].files@.len() ==> has_key(
                a0.enabled@,
                #[trigger] a1.repo_data->0.snapshots@[i].files@[j].extension@,
            ),
    ensures
        loc_points(a1.repo_data->0, a1.enabled@)[i].1 == 0,
{
    let files = a1.repo_data->0.snapshots@[i].files@;
    assert forall|j: int| 0 <= j < files.len() implies !counts_in_chart(
        a1.enabled@,
        #[trigger] files[j].extension@,
    ) by {
        assert(value_of(a1.enabled@, files[j].extension@) == if has_key(
            a0.enabled@,
            files[j].extension@,
        ) {
            Some(false)
        } else {
            None
        });
    }
    lemma_none_counting_is_zero(files, a1.enabled@);
}

/// After a walk ends, every extension of the result is ticked, so the chart shows
/// every day's total code lines.
pub proof fn lemma_walk_done_shows_totals(a0: App, d: RepoData, a1: App, c: Command, i: int)
    requires
        update_spec(a0, Message::WalkDone(Box::new(d)), a1, c),
        forall|s: int, j: int|
            #![trigger d.snapshots@[s].files@[j]]
            0 <= s < d.snapshots@.len() && 0 <= j < d.snapshots@[s].files@.len()
                ==> views_of(d.all_extensions@).contains(d.snapshots@[s].files@[j].extension@),
        0 <= i < d.snapshots@.len(),
    ensures
        a1.repo_data == Some(d),
        loc_points(d, a1.enabled@)[i] == (d.snapshots@[i].date, all_lines(d.snapshots@[i].files@) as u64),
{
    assert forall|x: Seq<char>| counts_in_chart(a1.enabled@, x) by {
        assert(value_of(a1.enabled@, x) == if views_of(d.all_extensions@).contains(x) {
            Some(true)
        } else {
            None
        });
    }
    lemma_all_counting_is_all_lines(d.snapshots@[i].files@, a1.enabled@);
}

/// The commits chart never goes down, and its last point is the number of all commits.
pub proof fn lemma_commit_points_climb(data: RepoData, i: int, j: int)
    requires
        totals_fit(data),
        0 <= i <= j < data.commits_per_day@.len(),
    ensures
        commit_points(data)[i].1 <= commit_points(data)[j].1,
        commit_points(data)[data.commits_per_day@.len() - 1].1 == count_total(data.commits_per_day@),
{
    let c = data.commits_per_day@;
    lemma_count_total_prefix(c, i + 1);
    lemma_count_total_prefix(c, j + 1);
    lemma_count_total_prefix_mono(c, i + 1, j + 1);
    assert(c.take(c.len() as int) =~= c);
}

proof fn lemma_count_total_prefix_mono(c: Seq<(i32, u32)>, k1: int, k2: int)
    requires
        0 <= k1 <= k2 <= c.len(),
    ensures
        count_total(c.take(k1)) <= count_total(c.take(k2)),
    decreases k2 - k1,
{
    if k1 < k2 {
        lemma_count_total_prefix_mono(c, k1, k2 - 1);
        assert(c.take(k2).drop_last() =~= c.take(k2 - 1));
    }
}


/// The status agrees with what the window holds: loaded means a result is there,
/// loading means none is yet, and idle means no repository has been picked.
pub open spec fn status_agrees(a: App) -> bool {
    &&& a.status is Loaded ==> a.repo_data is Some
    &&& a.status is Loading ==> a.repo_data is None
    &&& a.status is Idle ==> a.current_path is None && a.repo_data is None
}

/// Every message keeps the status in agreement with what the window holds.
pub proof fn lemma_update_keeps_status_agreeing(pre: App, msg: Message, post: App, cmd: Command)
    requires
        status_agrees(pre),
        update_spec(pre, msg, post, cmd),
    ensures
        status_agrees(post),
{
}

/// From the window's first state, along any run of messages, the status always
/// agrees with what the window holds.
pub proof fn lemma_status_agrees_along_any_run(
    states: Seq<App>,
    msgs: Seq<Message>,
    cmds: Seq<Command>,
    k: int,
)
    requires
        states.len() == msgs.len() + 1,
        cmds.len() == msgs.len(),
        states[0].status is Idle,
        states[0].current_path is None,
        states[0].repo_data is None,
        forall|i: int|
            0 <= i < msgs.len() ==> update_spec(
                #[trigger] states[i],
                msgs[i],
                states[i + 1],
                cmds[i],
            ),
        0 <= k < states.len(),
    ensures
        status_agrees(states[k]),
    decreases k,
{
    if k > 0 {
        lemma_status_agrees_along_any_run(states, msgs, cmds, k - 1);
        lemma_update_keeps_status_agreeing(states[k - 1], msgs[k - 1], states[k], cmds[k - 1]);
    }
}


/// Turning buckets on never lowers the lines that count.
pub proof fn lemma_more_choices_more_lines(
    files: Seq<FileStats>,
    e1: Seq<(String, bool)>,
    e2: Seq<(String, bool)>,
)
    requires
        forall|x: Seq<char>| counts_in_chart(e1, x) ==> counts_in_chart(e2, x),
    ensures
        enabled_lines(files, e1) <= enabled_lines(files, e2),
    decreases files.len(),
{
    if files.len() > 0 {
        lemma_more_choices_more_lines(files.drop_last(), e1, e2);
    }
}

/// Turning extensions on never lowers a day's total in the lines-of-code chart:
/// the days stay the same and each value can only grow.
pub proof fn lemma_turning_on_never_lowers_totals(
    data: RepoData,
    e1: Seq<(String, bool)>,
    e2: Seq<(String, bool)>,
    i: int,
)
    requires
        totals_fit(data),
        forall|x: Seq<char>| counts_in_chart(e1, x) ==> counts_in_chart(e2, x),
        0 <= i < data.snapshots@.len(),
    ensures
        loc_points(data, e1).len() == loc_points(data, e2).len(),
        loc_points(data, e1)[i].0 == loc_points(data, e2)[i].0,
        loc_points(data, e1)[i].1 <= loc_points(data, e2)[i].1,
{
    let files = data.snapshots@[i].files@;
    lemma_more_choices_more_lines(files, e1, e2);
    lemma_enabled_within_all(files, e2);
}

} // verus!
