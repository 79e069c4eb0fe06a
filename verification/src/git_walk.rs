//! The decisions of a history walk: which commit stands for each day, how many
//! commits each day has, what a tree's blobs add up to, and how the per-day
//! results are put together.
use crate::app::all_lines;
use crate::keyed::{ascending, set_insert, views_of};
use crate::text::{chars_before, lemma_before_irreflexive, lemma_before_transitive};
use crate::types::{DailySnapshot, FileStats, RepoData};
use vstd::prelude::*;

verus! {

/// A commit as the walk sees it: its commit time (seconds since the Unix epoch) and
/// the local calendar day of that time (a day number as in `DailySnapshot::date`).
#[derive(Debug, Clone, Copy)]
pub struct CommitStamp {
    pub secs: i64,
    pub day: i32,
}

/// The commit chosen for a day: `commit` is its position in the walk.
#[derive(Debug, Clone, Copy)]
pub struct DayPick {
    pub day: i32,
    pub commit: usize,
}

/// Commit `i` is the one that stands for its day: no commit of that day is later,
/// and every earlier-walked commit of that day is strictly earlier in time.
pub open spec fn is_last_of_day(commits: Seq<CommitStamp>, i: int) -> bool {
    &&& 0 <= i < commits.len()
    &&& forall|j: int|
        #![trigger commits[j]]
        0 <= j < commits.len() && commits[j].day == commits[i].day ==> commits[j].secs
            <= commits[i].secs && (j < i ==> commits[j].secs < commits[i].secs)
}

/// `picks` holds, in ascending order of day, one entry for each day that has a
/// commit, naming the commit that stands for that day.
pub open spec fn picks_last_per_day(commits: Seq<CommitStamp>, picks: Seq<DayPick>) -> bool {
    &&& forall|a: int, b: int| 0 <= a < b < picks.len() ==> picks[a].day < picks[b].day
    &&& forall|a: int|
        #![trigger picks[a]]
        0 <= a < picks.len() ==> picks[a].commit < commits.len() && commits[picks[a].commit as int].day
            == picks[a].day && is_last_of_day(commits, picks[a].commit as int)
    &&& forall|i: int|
        #![trigger commits[i]]
        0 <= i < commits.len() ==> exists|a: int|
            0 <= a < picks.len() && #[trigger] picks[a].day == commits[i].day
}

/// The first position in `picks` whose day is not before `day`.
fn day_position(picks: &Vec<DayPick>, day: i32) -> (a: usize)
    requires
        forall|x: int, y: int| 0 <= x < y < picks.len() ==> picks[x].day < picks[y].day,
    ensures
        a <= picks.len(),
        forall|x: int| 0 <= x < a ==> picks[x].day < day,
        forall|x: int| a <= x < picks.len() ==> picks[x].day >= day,
{
    let mut a: usize = 0;
    while a < picks.len() && picks[a].day < day
        invariant
            a <= picks.len(),
            forall|x: int, y: int| 0 <= x < y < picks.len() ==> picks[x].day < picks[y].day,
            forall|x: int| 0 <= x < a ==> picks[x].day < day,
        decreases picks.len() - a,
    {
        a = a + 1;
    }
    a
}

#[verifier::spinoff_prover]
proof fn lemma_pick_replace(pre: Seq<CommitStamp>, c: CommitStamp, old_picks: Seq<DayPick>, a: int, k: usize)
    requires
        picks_last_per_day(pre, old_picks),
        k == pre.len(),
        0 <= a < old_picks.len(),
        old_picks[a].day == c.day,
        c.secs > pre[old_picks[a].commit as int].secs,
    ensures
        picks_last_per_day(pre.push(c), old_picks.update(a, DayPick { day: c.day, commit: k })),
{
    let post = pre.push(c);
    let picks = old_picks.update(a, DayPick { day: c.day, commit: k });
    let cur = old_picks[a].commit as int;
    assert(is_last_of_day(pre, cur));
    assert forall|j: int| 0 <= j < post.len() && #[trigger] post[j].day == post[k as int].day
        implies post[j].secs <= post[k as int].secs && (j < k ==> post[j].secs < post[k as int].secs) by {
        if j < k {
            assert(pre[j] == post[j]);
        }
    }
    assert forall|b: int| #![trigger picks[b]] 0 <= b < picks.len() implies picks[b].commit
        < post.len() && post[picks[b].commit as int].day == picks[b].day && is_last_of_day(
        post,
        picks[b].commit as int,
    ) by {
        if b != a {
            assert(old_picks[b] == picks[b]);
            let cb = picks[b].commit as int;
            assert(is_last_of_day(pre, cb));
            assert(pre[cb] == post[cb]);
            assert forall|j: int| 0 <= j < post.len() && #[trigger] post[j].day == post[cb].day
                implies post[j].secs <= post[cb].secs && (j < cb ==> post[j].secs < post[cb].secs) by {
                if j < k {
                    assert(pre[j] == post[j]);
                } else {
                    if b < a {
                        assert(old_picks[b].day < old_picks[a].day);
                    } else {
                        assert(old_picks[a].day < old_picks[b].day);
                    }
                }
            }
        }
    }
    assert forall|i: int| #![trigger post[i]] 0 <= i < post.len() implies exists|x: int|
        0 <= x < picks.len() && #[trigger] picks[x].day == post[i].day by {
        if i < k {
            assert(pre[i] == post[i]);
            let x = choose|x: int| 0 <= x < old_picks.len() && #[trigger] old_picks[x].day == pre[i].day;
            assert(picks[x].day == old_picks[x].day);
        } else {
            assert(picks[a].day == post[i].day);
        }
    }
}

#[verifier::spinoff_prover]
proof fn lemma_pick_keep(pre: Seq<CommitStamp>, c: CommitStamp, picks: Seq<DayPick>, a: int)
    requires
        picks_last_per_day(pre, picks),
        0 <= a < picks.len(),
        picks[a].day == c.day,
        c.secs <= pre[picks[a].commit as int].secs,
    ensures
        picks_last_per_day(pre.push(c), picks),
{
    let post = pre.push(c);
    let k = pre.len() as int;
    assert forall|b: int| #![trigger picks[b]] 0 <= b < picks.len() implies picks[b].commit
        < post.len() && post[picks[b].commit as int].day == picks[b].day && is_last_of_day(
        post,
        picks[b].commit as int,
    ) by {
        let cb = picks[b].commit as int;
        assert(is_last_of_day(pre, cb));
        assert(pre[cb] == post[cb]);
        assert forall|j: int| 0 <= j < post.len() && #[trigger] post[j].day == post[cb].day
            implies post[j].secs <= post[cb].secs && (j < cb ==> post[j].secs < post[cb].secs) by {
            if j < k {
                assert(pre[j] == post[j]);
            } else if b < a {
                assert(picks[b].day < picks[a].day);
            } else if b > a {
                assert(picks[a].day < picks[b].day);
            }
        }
    }
    assert forall|i: int| #![trigger post[i]] 0 <= i < post.len() implies exists|x: int|
        0 <= x < picks.len() && #[trigger] picks[x].day == post[i].day by {
        if i < k {
            assert(pre[i] == post[i]);
        } else {
            assert(picks[a].day == post[i].day);
        }
    }
}

#[verifier::spinoff_prover]
proof fn lemma_pick_insert(pre: Seq<CommitStamp>, c: CommitStamp, old_picks: Seq<DayPick>, a: int, k: usize)
    requires
        picks_last_per_day(pre, old_picks),
        k == pre.len(),
        0 <= a <= old_picks.len(),
        forall|x: int| 0 <= x < a ==> old_picks[x].day < c.day,
        forall|x: int| a <= x < old_picks.len() ==> old_picks[x].day > c.day,
    ensures
        picks_last_per_day(pre.push(c), old_picks.insert(a, DayPick { day: c.day, commit: k })),
{
    let post = pre.push(c);
    let picks = old_picks.insert(a, DayPick { day: c.day, commit: k });
    assert forall|j: int| 0 <= j < pre.len() implies #[trigger] pre[j].day != c.day by {
        let x = choose|x: int| 0 <= x < old_picks.len() && #[trigger] old_picks[x].day == pre[j].day;
    }
    assert forall|b: int| #![trigger picks[b]] 0 <= b < picks.len() implies picks[b].commit
        < post.len() && post[picks[b].commit as int].day == picks[b].day && is_last_of_day(
        post,
        picks[b].commit as int,
    ) by {
        if b == a {
            assert forall|j: int| 0 <= j < post.len() && #[trigger] post[j].day == post[k as int].day
                implies post[j].secs <= post[k as int].secs && (j < k ==> post[j].secs
                < post[k as int].secs) by {
                if j < k {
                    assert(pre[j] == post[j]);
                }
            }
        } else {
            let ob = if b < a { b } else { b - 1 };
            assert(picks[b] == old_picks[ob]);
            let cb = picks[b].commit as int;
            assert(is_last_of_day(pre, cb));
            assert(pre[cb] == post[cb]);
            assert forall|j: int| 0 <= j < post.len() && #[trigger] post[j].day == post[cb].day
                implies post[j].secs <= post[cb].secs && (j < cb ==> post[j].secs < post[cb].secs) by {
                if j < k {
                    assert(pre[j] == post[j]);
                }
            }
        }
    }
    assert forall|i: int| #![trigger post[i]] 0 <= i < post.len() implies exists|x: int|
        0 <= x < picks.len() && #[trigger] picks[x].day == post[i].day by {
        if i < k {
            assert(pre[i] == post[i]);
            let x = choose|x: int| 0 <= x < old_picks.len() && #[trigger] old_picks[x].day == pre[i].day;
            if x < a {
                assert(picks[x] == old_picks[x]);
            } else {
                assert(picks[x + 1] == old_picks[x]);
            }
        } else {
            assert(picks[a].day == post[i].day);
        }
    }
    assert forall|x: int, y: int| 0 <= x < y < picks.len() implies picks[x].day < picks[y].day by {
        if y < a {
        } else if x > a {
            assert(picks[x] == old_picks[x - 1]);
            assert(picks[y] == old_picks[y - 1]);
        } else if x == a {
            assert(picks[y] == old_picks[y - 1]);
        } else if y == a {
        } else {
            assert(picks[y] == old_picks[y - 1]);
        }
    }
}

/// For each day with a commit, the commit that stands for it: the latest by commit
/// time, and of several equally late ones the first walked.
pub fn pick_last_per_day(commits: &[CommitStamp]) -> (picks: Vec<DayPick>)
    ensures
        picks_last_per_day(commits@, picks@),
{
    let mut picks: Vec<DayPick> = Vec::new();
    let n = commits.len();
    for k in 0..n
        invariant
            n == commits@.len(),
            picks_last_per_day(commits@.take(k as int), picks@),
    {
        let ghost pre = commits@.take(k as int);
        let ghost old_picks = picks@;
        let c = commits[k];
        assert(commits@.take(k + 1) =~= pre.push(c));
        let a = day_position(&picks, c.day);
        if a < picks.len() && picks[a].day == c.day {
            let cur = picks[a].commit;
            assert(pre[cur as int] == commits@[cur as int]);
            if c.secs > commits[cur].secs {
                picks.set(a, DayPick { day: c.day, commit: k });
                proof {
                    lemma_pick_replace(pre, c, old_picks, a as int, k);
                }
            } else {
                proof {
                    lemma_pick_keep(pre, c, old_picks, a as int);
                }
            }
        } else {
            picks.insert(a, DayPick { day: c.day, commit: k });
            proof {
                lemma_pick_insert(pre, c, old_picks, a as int, k);
            }
        }
    }
    assert(commits@.take(n as int) =~= commits@);
    picks
}

/// The number of commits of `day`.
pub open spec fn day_count(commits: Seq<CommitStamp>, day: i32) -> nat
    decreases commits.len(),
{
    if commits.len() == 0 {
        0
    } else {
        day_count(commits.drop_last(), day) + if commits.last().day == day {
            1nat
        } else {
            0nat
        }
    }
}

/// `counts` holds, in ascending order of day, one entry for each day that has a
/// commit, with the number of that day's commits.
pub open spec fn counts_per_day(commits: Seq<CommitStamp>, counts: Seq<(i32, u32)>) -> bool {
    &&& forall|a: int, b: int| 0 <= a < b < counts.len() ==> counts[a].0 < counts[b].0
    &&& forall|a: int|
        #![trigger counts[a]]
        0 <= a < counts.len() ==> counts[a].1 == day_count(commits, counts[a].0) && counts[a].1 > 0
    &&& forall|i: int|
        #![trigger commits[i]]
        0 <= i < commits.len() ==> exists|a: int|
            0 <= a < counts.len() && #[trigger] counts[a].0 == commits[i].day
}

/// The total of the counts of a per-day table.
pub open spec fn count_total(counts: Seq<(i32, u32)>) -> nat
    decreases counts.len(),
{
    if counts.len() == 0 {
        0
    } else {
        count_total(counts.drop_last()) + (counts.last().1 as nat)
    }
}

proof fn lemma_day_count_prefix(s: Seq<CommitStamp>, k: int, d: i32)
    requires
        0 <= k <= s.len(),
    ensures
        day_count(s.take(k), d) <= day_count(s, d),
    decreases s.len() - k,
{
    if k < s.len() {
        lemma_day_count_prefix(s, k + 1, d);
        assert(s.take(k + 1).drop_last() =~= s.take(k));
    } else {
        assert(s.take(k) =~= s);
    }
}

proof fn lemma_day_count_absent(s: Seq<CommitStamp>, d: i32)
    requires
        forall|j: int| 0 <= j < s.len() ==> #[trigger] s[j].day != d,
    ensures
        day_count(s, d) == 0,
    decreases s.len(),
{
    if s.len() > 0 {
        lemma_day_count_absent(s.drop_last(), d);
    }
}

proof fn lemma_count_total_update(s: Seq<(i32, u32)>, i: int, x: (i32, u32))
    requires
        0 <= i < s.len(),
    ensures
        count_total(s.update(i, x)) + s[i].1 == count_total(s) + x.1,
    decreases s.len(),
{
    if i < s.len() - 1 {
        lemma_count_total_update(s.drop_last(), i, x);
        assert(s.update(i, x).drop_last() =~= s.drop_last().update(i, x));
    } else {
        assert(s.update(i, x).drop_last() =~= s.drop_last());
    }
}

proof fn lemma_count_total_insert(s: Seq<(i32, u32)>, i: int, x: (i32, u32))
    requires
        0 <= i <= s.len(),
    ensures
        count_total(s.insert(i, x)) == count_total(s) + x.1,
    decreases s.len(),
{
    if i < s.len() {
        lemma_count_total_insert(s.drop_last(), i, x);
        assert(s.insert(i, x).drop_last() =~= s.drop_last().insert(i, x));
    } else {
        assert(s.insert(i, x).drop_last() =~= s);
    }
}

#[verifier::spinoff_prover]
proof fn lemma_count_bump(pre: Seq<CommitStamp>, c: CommitStamp, old_counts: Seq<(i32, u32)>, a: int)
    requires
        counts_per_day(pre, old_counts),
        0 <= a < old_counts.len(),
        old_counts[a].0 == c.day,
        old_counts[a].1 < u32::MAX,
    ensures
        counts_per_day(pre.push(c), old_counts.update(a, (c.day, (old_counts[a].1 + 1) as u32))),
{
    let post = pre.push(c);
    let counts = old_counts.update(a, (c.day, (old_counts[a].1 + 1) as u32));
    assert(post.drop_last() =~= pre);
    assert forall|b: int| #![trigger counts[b]] 0 <= b < counts.len() implies counts[b].1
        == day_count(post, counts[b].0) && counts[b].1 > 0 by {
        if b != a {
            assert(counts[b] == old_counts[b]);
            if b < a {
                assert(old_counts[b].0 < old_counts[a].0);
            } else {
                assert(old_counts[a].0 < old_counts[b].0);
            }
        }
    }
    assert forall|i: int| #![trigger post[i]] 0 <= i < post.len() implies exists|x: int|
        0 <= x < counts.len() && #[trigger] counts[x].0 == post[i].day by {
        if i < pre.len() {
            assert(pre[i] == post[i]);
            let x = choose|x: int| 0 <= x < old_counts.len() && #[trigger] old_counts[x].0 == pre[i].day;
            assert(counts[x].0 == old_counts[x].0);
        } else {
            assert(counts[a].0 == post[i].day);
        }
    }
}

#[verifier::spinoff_prover]
proof fn lemma_count_new(pre: Seq<CommitStamp>, c: CommitStamp, old_counts: Seq<(i32, u32)>, a: int)
    requires
        counts_per_day(pre, old_counts),
        0 <= a <= old_counts.len(),
        forall|x: int| 0 <= x < a ==> old_counts[x].0 < c.day,
        forall|x: int| a <= x < old_counts.len() ==> old_counts[x].0 > c.day,
    ensures
        counts_per_day(pre.push(c), old_counts.insert(a, (c.day, 1u32))),
{
    let post = pre.push(c);
    let counts = old_counts.insert(a, (c.day, 1u32));
    assert(post.drop_last() =~= pre);
    assert forall|j: int| 0 <= j < pre.len() implies #[trigger] pre[j].day != c.day by {
        let x = choose|x: int| 0 <= x < old_counts.len() && #[trigger] old_counts[x].0 == pre[j].day;
    }
    lemma_day_count_absent(pre, c.day);
    assert forall|b: int| #![trigger counts[b]] 0 <= b < counts.len() implies counts[b].1
        == day_count(post, counts[b].0) && counts[b].1 > 0 by {
        if b != a {
            let ob = if b < a { b } else { b - 1 };
            assert(counts[b] == old_counts[ob]);
        }
    }
    assert forall|i: int| #![trigger post[i]] 0 <= i < post.len() implies exists|x: int|
        0 <= x < counts.len() && #[trigger] counts[x].0 == post[i].day by {
        if i < pre.len() {
            assert(pre[i] == post[i]);
            let x = choose|x: int| 0 <= x < old_counts.len() && #[trigger] old_counts[x].0 == pre[i].day;
            if x < a {
                assert(counts[x] == old_counts[x]);
            } else {
                assert(counts[x + 1] == old_counts[x]);
            }
        } else {
            assert(counts[a].0 == post[i].day);
        }
    }
    assert forall|x: int, y: int| 0 <= x < y < counts.len() implies counts[x].0 < counts[y].0 by {
        if y < a {
        } else if x > a {
            assert(counts[x] == old_counts[x - 1]);
            assert(counts[y] == old_counts[y - 1]);
        } else if x == a {
            assert(counts[y] == old_counts[y - 1]);
        } else if y == a {
        } else {
            assert(counts[y] == old_counts[y - 1]);
        }
    }
}

/// The first position in `counts` whose day is not before `day`.
fn count_position(counts: &Vec<(i32, u32)>, day: i32) -> (a: usize)
    requires
        forall|x: int, y: int| 0 <= x < y < counts.len() ==> counts[x].0 < counts[y].0,
    ensures
        a <= counts.len(),
        forall|x: int| 0 <= x < a ==> counts[x].0 < day,
        forall|x: int| a <= x < counts.len() ==> counts[x].0 >= day,
{
    let mut a: usize = 0;
    while a < counts.len() && counts[a].0 < day
        invariant
            a <= counts.len(),
            forall|x: int, y: int| 0 <= x < y < counts.len() ==> counts[x].0 < counts[y].0,
            forall|x: int| 0 <= x < a ==> counts[x].0 < day,
        decreases counts.len() - a,
    {
        a = a + 1;
    }
    a
}

/// The number of commits of each day that has one, in ascending order of day. Every
/// commit is counted once.
pub fn count_commits_per_day(commits: &[CommitStamp]) -> (counts: Vec<(i32, u32)>)
    requires
        forall|d: i32| day_count(commits@, d) <= u32::MAX,
    ensures
        counts_per_day(commits@, counts@),
        count_total(counts@) == commits@.len(),
{
    let mut counts: Vec<(i32, u32)> = Vec::new();
    let n = commits.len();
    for k in 0..n
        invariant
            n == commits@.len(),
            forall|d: i32| day_count(commits@, d) <= u32::MAX,
            counts_per_day(commits@.take(k as int), counts@),
            count_total(counts@) == k,
    {
        let ghost pre = commits@.take(k as int);
        let ghost old_counts = counts@;
        let c = commits[k];
        assert(commits@.take(k + 1) =~= pre.push(c));
        let a = count_position(&counts, c.day);
        if a < counts.len() && counts[a].0 == c.day {
            let cur = counts[a].1;
            proof {
                lemma_day_count_prefix(commits@, k + 1, c.day);
                assert(pre.push(c).drop_last() =~= pre);
                assert(cur == day_count(pre, c.day));
            }
            counts.set(a, (c.day, cur + 1));
            proof {
                lemma_count_bump(pre, c, old_counts, a as int);
                lemma_count_total_update(old_counts, a as int, (c.day, (cur + 1) as u32));
            }
        } else {
            counts.insert(a, (c.day, 1));
            proof {
                lemma_count_new(pre, c, old_counts, a as int);
                lemma_count_total_insert(old_counts, a as int, (c.day, 1u32));
            }
        }
    }
    assert(commits@.take(n as int) =~= commits@);
    counts
}

/// What a blob of a tree contributes: its code lines, or nothing where it is binary.
#[derive(Debug, Clone, Copy)]
pub enum BlobOutcome {
    Lines(u64),
    Binary,
}

/// The code lines a blob contributes.
pub open spec fn outcome_lines(o: BlobOutcome) -> nat {
    match o {
        BlobOutcome::Lines(n) => n as nat,
        BlobOutcome::Binary => 0,
    }
}

/// The code lines that the blobs of extension bucket `ext` contribute.
pub open spec fn ext_total(blobs: Seq<(String, BlobOutcome)>, ext: Seq<char>) -> nat
    decreases blobs.len(),
{
    if blobs.len() == 0 {
        0
    } else {
        ext_total(blobs.drop_last(), ext) + if blobs.last().0@ == ext {
            outcome_lines(blobs.last().1)
        } else {
            0nat
        }
    }
}

/// `files` holds one entry for each extension bucket whose blobs have code lines,
/// with the sum of those lines; buckets whose blobs add up to no line, and binary
/// blobs, do not appear.
pub open spec fn tallies(blobs: Seq<(String, BlobOutcome)>, files: Seq<FileStats>) -> bool {
    &&& forall|a: int, b: int|
        0 <= a < b < files.len() ==> files[a].extension@ != files[b].extension@
    &&& forall|a: int|
        #![trigger files[a]]
        0 <= a < files.len() ==> files[a].code_lines == ext_total(blobs, files[a].extension@)
            && files[a].code_lines > 0
    &&& forall|ext: Seq<char>|
        #![trigger ext_total(blobs, ext)]
        ext_total(blobs, ext) > 0 ==> exists|a: int|
            0 <= a < files.len() && #[trigger] files[a].extension@ == ext
}

proof fn lemma_ext_total_prefix(s: Seq<(String, BlobOutcome)>, k: int, e: Seq<char>)
    requires
        0 <= k <= s.len(),
    ensures
        ext_total(s.take(k), e) <= ext_total(s, e),
    decreases s.len() - k,
{
    if k < s.len() {
        lemma_ext_total_prefix(s, k + 1, e);
        assert(s.take(k + 1).drop_last() =~= s.take(k));
    } else {
        assert(s.take(k) =~= s);
    }
}

proof fn lemma_tally_skip(pre: Seq<(String, BlobOutcome)>, b: (String, BlobOutcome), files: Seq<FileStats>)
    requires
        tallies(pre, files),
        outcome_lines(b.1) == 0,
    ensures
        tallies(pre.push(b), files),
{
    let post = pre.push(b);
    assert(post.drop_last() =~= pre);
    assert forall|e: Seq<char>| #![trigger ext_total(post, e)] ext_total(post, e) > 0 implies exists|a: int|
        0 <= a < files.len() && #[trigger] files[a].extension@ == e by {
        assert(ext_total(pre, e) > 0);
    }
}

#[verifier::spinoff_prover]
proof fn lemma_tally_add(
    pre: Seq<(String, BlobOutcome)>,
    b: (String, BlobOutcome),
    old_files: Seq<FileStats>,
    i: int,
    f: FileStats,
)
    requires
        tallies(pre, old_files),
        0 <= i < old_files.len(),
        old_files[i].extension@ == b.0@,
        f.extension@ == b.0@,
        f.code_lines == old_files[i].code_lines + outcome_lines(b.1),
    ensures
        tallies(pre.push(b), old_files.update(i, f)),
{
    let post = pre.push(b);
    let files = old_files.update(i, f);
    assert(post.drop_last() =~= pre);
    assert forall|a: int| #![trigger files[a]] 0 <= a < files.len() implies files[a].code_lines
        == ext_total(post, files[a].extension@) && files[a].code_lines > 0 by {
        if a != i {
            assert(files[a] == old_files[a]);
            if a < i {
                assert(old_files[a].extension@ != old_files[i].extension@);
            } else {
                assert(old_files[i].extension@ != old_files[a].extension@);
            }
        }
    }
    assert forall|e: Seq<char>| #![trigger ext_total(post, e)] ext_total(post, e) > 0 implies exists|a: int|
        0 <= a < files.len() && #[trigger] files[a].extension@ == e by {
        if e == b.0@ {
            assert(files[i].extension@ == e);
        } else {
            assert(ext_total(pre, e) > 0);
            let a = choose|a: int| 0 <= a < old_files.len() && #[trigger] old_files[a].extension@ == e;
            assert(files[a].extension@ == e);
        }
    }
}

#[verifier::spinoff_prover]
proof fn lemma_tally_new(
    pre: Seq<(String, BlobOutcome)>,
    b: (String, BlobOutcome),
    old_files: Seq<FileStats>,
    f: FileStats,
)
    requires
        tallies(pre, old_files),
        forall|a: int| 0 <= a < old_files.len() ==> #[trigger] old_files[a].extension@ != b.0@,
        f.extension@ == b.0@,
        f.code_lines == outcome_lines(b.1),
        outcome_lines(b.1) > 0,
    ensures
        tallies(pre.push(b), old_files.push(f)),
{
    let post = pre.push(b);
    let files = old_files.push(f);
    assert(post.drop_last() =~= pre);
    if ext_total(pre, b.0@) > 0 {
        let a = choose|a: int| 0 <= a < old_files.len() && #[trigger] old_files[a].extension@ == b.0@;
    }
    assert forall|a: int| #![trigger files[a]] 0 <= a < files.len() implies files[a].code_lines
        == ext_total(post, files[a].extension@) && files[a].code_lines > 0 by {
        if a < old_files.len() {
            assert(files[a] == old_files[a]);
        }
    }
    assert forall|e: Seq<char>| #![trigger ext_total(post, e)] ext_total(post, e) > 0 implies exists|a: int|
        0 <= a < files.len() && #[trigger] files[a].extension@ == e by {
        if e == b.0@ {
            assert(files[old_files.len() as int].extension@ == e);
        } else {
            assert(ext_total(pre, e) > 0);
            let a = choose|a: int| 0 <= a < old_files.len() && #[trigger] old_files[a].extension@ == e;
            assert(files[a].extension@ == e);
        }
    }
    assert forall|x: int, y: int| 0 <= x < y < files.len() implies files[x].extension@
        != files[y].extension@ by {
        if y == old_files.len() {
            assert(files[x] == old_files[x]);
        }
    }
}

/// Adds up the code lines of a tree's blobs per extension bucket (each entry is a
/// blob's bucket and outcome). Binary blobs and buckets without code lines are left out.
pub fn tally_extensions(blobs: &Vec<(String, BlobOutcome)>) -> (files: Vec<FileStats>)
    requires
        forall|ext: Seq<char>| ext_total(blobs@, ext) <= u64::MAX,
    ensures
        tallies(blobs@, files@),
{
    let mut files: Vec<FileStats> = Vec::new();
    let n = blobs.len();
    for k in 0..n
        invariant
            n == blobs@.len(),
            forall|ext: Seq<char>| ext_total(blobs@, ext) <= u64::MAX,
            tallies(blobs@.take(k as int), files@),
    {
        let ghost pre = blobs@.take(k as int);
        let ghost old_files = files@;
        let b = &blobs[k];
        assert(blobs@.take(k + 1) =~= pre.push(*b));
        let n_lines = match b.1 {
            BlobOutcome::Lines(x) => x,
            BlobOutcome::Binary => 0,
        };
        if n_lines == 0 {
            proof {
                lemma_tally_skip(pre, *b, old_files);
            }
        } else {
            let mut i: usize = 0;
            while i < files.len() && files[i].extension != b.0
                invariant
                    i <= files.len(),
                    forall|a: int| 0 <= a < i ==> #[trigger] files@[a].extension@ != b.0@,
                decreases files.len() - i,
            {
                i = i + 1;
            }
            if i < files.len() {
                proof {
                    lemma_ext_total_prefix(blobs@, k + 1, b.0@);
                    assert(pre.push(*b).drop_last() =~= pre);
                }
                let f = FileStats {
                    extension: files[i].extension.clone(),
                    code_lines: files[i].code_lines + n_lines,
                };
                files.set(i, f);
                proof {
                    lemma_tally_add(pre, *b, old_files, i as int, f);
                }
            } else {
                let f = FileStats { extension: b.0.clone(), code_lines: n_lines };
                files.push(f);
                proof {
                    lemma_tally_new(pre, *b, old_files, f);
                }
            }
        }
    }
    assert(blobs@.take(n as int) =~= blobs@);
    files
}

/// Snapshots in non-decreasing order of day.
pub open spec fn by_day(snaps: Seq<DailySnapshot>) -> bool {
    forall|i: int, j: int| 0 <= i < j < snaps.len() ==> snaps[i].date <= snaps[j].date
}

/// Some snapshot counts lines in extension bucket `ext`.
pub open spec fn has_extension(snaps: Seq<DailySnapshot>, ext: Seq<char>) -> bool {
    exists|i: int, j: int|
        0 <= i < snaps.len() && 0 <= j < snaps[i].files.len() && #[trigger] snaps[i].files@[j].extension@
            == ext
}

/// The extension buckets of all snapshots, in ascending order, each once.
pub fn collect_extensions(snaps: &Vec<DailySnapshot>) -> (exts: Vec<String>)
    ensures
        ascending(views_of(exts@)),
        forall|ext: Seq<char>| views_of(exts@).contains(ext) <==> has_extension(snaps@, ext),
{
    let mut exts: Vec<String> = Vec::new();
    let n = snaps.len();
    for i in 0..n
        invariant
            n == snaps@.len(),
            ascending(views_of(exts@)),
            forall|ext: Seq<char>|
                views_of(exts@).contains(ext) <==> has_extension(snaps@.take(i as int), ext),
    {
        let files = &snaps[i].files;
        let m = files.len();
        for j in 0..m
            invariant
                n == snaps@.len(),
                i < n,
                files == snaps@[i as int].files,
                m == files@.len(),
                ascending(views_of(exts@)),
                forall|ext: Seq<char>|
                    views_of(exts@).contains(ext) <==> has_extension(snaps@.take(i as int), ext)
                        || exists|jj: int| 0 <= jj < j && #[trigger] files@[jj].extension@ == ext,
        {
            set_insert(&mut exts, &files[j].extension);
            assert forall|ext: Seq<char>| views_of(exts@).contains(ext) <==> has_extension(
                snaps@.take(i as int),
                ext,
            ) || exists|jj: int| 0 <= jj < j + 1 && #[trigger] files@[jj].extension@ == ext by {
                if ext == files@[j as int].extension@ {
                    assert(files@[j as int].extension@ == ext);
                }
            }
        }
        assert forall|ext: Seq<char>| views_of(exts@).contains(ext) <==> has_extension(
            snaps@.take(i + 1),
            ext,
        ) by {
            let pre = snaps@.take(i as int);
            let post = snaps@.take(i + 1);
            if has_extension(pre, ext) {
                let (a, b) = choose|a: int, b: int|
                    0 <= a < pre.len() && 0 <= b < pre[a].files.len() && #[trigger] pre[a].files@[b].extension@
                        == ext;
                assert(post[a] == pre[a]);
            }
            if exists|jj: int| 0 <= jj < m && #[trigger] files@[jj].extension@ == ext {
                let jj = choose|jj: int| 0 <= jj < m && #[trigger] files@[jj].extension@ == ext;
                assert(post[i as int].files@[jj].extension@ == ext);
            }
            if has_extension(post, ext) {
                let (a, b) = choose|a: int, b: int|
                    0 <= a < post.len() && 0 <= b < post[a].files.len() && #[trigger] post[a].files@[b].extension@
                        == ext;
                if a < i {
                    assert(pre[a] == post[a]);
                    assert(pre[a].files@[b].extension@ == ext);
                } else {
                    assert(files@[b].extension@ == ext);
                }
            }
        }
    }
    assert(snaps@.take(n as int) =~= snaps@);
    exts
}

/// The snapshots of day `d`, in their order.
pub open spec fn of_day(snaps: Seq<DailySnapshot>, d: i32) -> Seq<DailySnapshot>
    decreases snaps.len(),
{
    if snaps.len() == 0 {
        Seq::empty()
    } else if snaps.last().date == d {
        of_day(snaps.drop_last(), d).push(snaps.last())
    } else {
        of_day(snaps.drop_last(), d)
    }
}

proof fn lemma_of_day_add(a: Seq<DailySnapshot>, b: Seq<DailySnapshot>, d: i32)
    ensures
        of_day(a + b, d) == of_day(a, d) + of_day(b, d),
    decreases b.len(),
{
    if b.len() == 0 {
        assert(a + b =~= a);
        assert(of_day(a, d) + of_day(b, d) =~= of_day(a, d));
    } else {
        lemma_of_day_add(a, b.drop_last(), d);
        assert((a + b).drop_last() =~= a + b.drop_last());
        if b.last().date == d {
            assert(of_day(a, d) + of_day(b.drop_last(), d).push(b.last()) =~= (of_day(a, d)
                + of_day(b.drop_last(), d)).push(b.last()));
        }
    }
}

proof fn lemma_of_day_absent(s: Seq<DailySnapshot>, d: i32)
    requires
        forall|i: int| 0 <= i < s.len() ==> #[trigger] s[i].date != d,
    ensures
        of_day(s, d) == Seq::<DailySnapshot>::empty(),
    decreases s.len(),
{
    if s.len() > 0 {
        lemma_of_day_absent(s.drop_last(), d);
    }
}

proof fn lemma_stable_step(
    sorted: Seq<DailySnapshot>,
    rest: Seq<DailySnapshot>,
    p: int,
    d: i32,
)
    requires
        rest.len() > 0,
        0 <= p <= sorted.len(),
        forall|x: int| 0 <= x < p ==> #[trigger] sorted[x].date <= rest[0].date,
        forall|x: int| p <= x < sorted.len() ==> #[trigger] sorted[x].date > rest[0].date,
    ensures
        of_day(sorted.insert(p, rest[0]), d) + of_day(rest.remove(0), d) == of_day(sorted, d)
            + of_day(rest, d),
{
    let s = rest[0];
    let a = sorted.take(p);
    let b = sorted.skip(p);
    let one = seq![s];
    assert(sorted =~= a + b);
    assert(sorted.insert(p, s) =~= (a + one) + b);
    assert(rest =~= one + rest.remove(0));
    lemma_of_day_add(a, b, d);
    lemma_of_day_add(a + one, b, d);
    lemma_of_day_add(a, one, d);
    lemma_of_day_add(one, rest.remove(0), d);
    assert(one.drop_last() =~= Seq::<DailySnapshot>::empty());
    assert(one.last() == s);
    assert(of_day(one.drop_last(), d) == Seq::<DailySnapshot>::empty());
    if s.date == d {
        assert forall|i: int| 0 <= i < b.len() implies #[trigger] b[i].date != d by {
            assert(b[i] == sorted[p + i]);
        }
        lemma_of_day_absent(b, d);
        assert(of_day(one, d) =~= one);
        assert(of_day(a, d) + of_day(b, d) =~= of_day(a, d));
        assert((of_day(a, d) + one) + of_day(b, d) =~= of_day(a, d) + one);
        assert((of_day(a, d) + one) + of_day(rest.remove(0), d) =~= of_day(a, d) + (one + of_day(
            rest.remove(0),
            d,
        )));
    } else {
        assert(of_day(one, d) =~= Seq::<DailySnapshot>::empty());
        assert(of_day(a, d) + of_day(one, d) =~= of_day(a, d));
        assert(of_day(one, d) + of_day(rest.remove(0), d) =~= of_day(rest.remove(0), d));
    }
}

/// Puts snapshots in order of day; snapshots of the same day keep their order.
pub fn sort_by_day(snaps: Vec<DailySnapshot>) -> (sorted: Vec<DailySnapshot>)
    ensures
        by_day(sorted@),
        sorted@.to_multiset() == snaps@.to_multiset(),
        forall|d: i32| #[trigger] of_day(sorted@, d) == of_day(snaps@, d),
{
    let mut rest = snaps;
    let mut sorted: Vec<DailySnapshot> = Vec::new();
    let ghost whole = rest@.to_multiset();
    let ghost input = rest@;
    proof {
        assert forall|d: i32| #[trigger] of_day(sorted@, d) + of_day(rest@, d) == of_day(input, d) by {
            assert(of_day(sorted@, d) + of_day(rest@, d) =~= of_day(input, d));
        }
        vstd::seq_lib::to_multiset_len(sorted@);
        vstd::multiset::lemma_multiset_empty_len(sorted@.to_multiset());
        assert(sorted@.to_multiset().add(rest@.to_multiset()) =~= whole);
    }
    while rest.len() > 0
        invariant
            by_day(sorted@),
            sorted@.to_multiset().add(rest@.to_multiset()) == whole,
            forall|d: i32| #[trigger] of_day(sorted@, d) + of_day(rest@, d) == of_day(input, d),
        decreases rest.len(),
    {
        let ghost old_rest = rest@;
        let ghost old_sorted = sorted@;
        let s = rest.remove(0);
        let mut p: usize = 0;
        while p < sorted.len() && sorted[p].date <= s.date
            invariant
                p <= sorted.len(),
                forall|x: int| 0 <= x < p ==> #[trigger] sorted@[x].date <= s.date,
            decreases sorted.len() - p,
        {
            p = p + 1;
        }
        assert forall|x: int| p <= x < sorted.len() implies #[trigger] sorted@[x].date > s.date by {
            if x > p {
                assert(sorted@[p as int].date <= sorted@[x].date);
            }
        }
        sorted.insert(p, s);
        assert forall|d: i32| #[trigger] of_day(sorted@, d) + of_day(rest@, d) == of_day(input, d) by {
            lemma_stable_step(old_sorted, old_rest, p as int, d);
        }
        proof {
            vstd::seq_lib::to_multiset_insert(old_sorted, p as int, s);
            vstd::seq_lib::to_multiset_remove(old_rest, 0);
            vstd::seq_lib::to_multiset_contains(old_rest, old_rest[0]);
            assert(old_rest.contains(old_rest[0])) by {
                assert(old_rest[0] == old_rest[0]);
            }
            broadcast use vstd::multiset::group_multiset_axioms;

            assert(sorted@.to_multiset().add(rest@.to_multiset()) =~= whole);
        }
        assert forall|x: int, y: int| 0 <= x < y < sorted@.len() implies sorted@[x].date
            <= sorted@[y].date by {
            if y < p {
                assert(sorted@[x] == old_sorted[x]);
                assert(sorted@[y] == old_sorted[y]);
            } else if x > p {
                assert(sorted@[x] == old_sorted[x - 1]);
                assert(sorted@[y] == old_sorted[y - 1]);
            } else if x == p {
                assert(sorted@[y] == old_sorted[y - 1]);
            } else if y == p {
                assert(sorted@[x] == old_sorted[x]);
            } else {
                assert(sorted@[x] == old_sorted[x]);
                assert(sorted@[y] == old_sorted[y - 1]);
            }
        }
    }
    proof {
        vstd::seq_lib::to_multiset_len(rest@);
        vstd::multiset::lemma_multiset_empty_len(rest@.to_multiset());
        broadcast use vstd::multiset::group_multiset_axioms;

        assert(sorted@.to_multiset() =~= whole);
        assert forall|d: i32| #[trigger] of_day(sorted@, d) == of_day(input, d) by {
            assert(of_day(sorted@, d) + of_day(rest@, d) =~= of_day(sorted@, d));
        }
    }
    sorted
}

/// Puts the walk's results together: the snapshots in order of day, every extension
/// bucket that occurs in them, and the commits per day.
pub fn assemble_repo_data(snapshots: Vec<DailySnapshot>, commits_per_day: Vec<(i32, u32)>) -> (data: RepoData)
    ensures
        by_day(data.snapshots@),
        data.snapshots@.to_multiset() == snapshots@.to_multiset(),
        forall|d: i32| #[trigger] of_day(data.snapshots@, d) == of_day(snapshots@, d),
        ascending(views_of(data.all_extensions@)),
        forall|ext: Seq<char>|
            views_of(data.all_extensions@).contains(ext) <==> has_extension(snapshots@, ext),
        data.commits_per_day@ == commits_per_day@,
{
    let all_extensions = collect_extensions(&snapshots);
    let sorted = sort_by_day(snapshots);
    RepoData { snapshots: sorted, all_extensions, commits_per_day }
}

/// The day number of the first day chrono's `NaiveDate` can hold (`NaiveDate::MIN`).
pub const MIN_DAY: i32 = -95_746_129;

/// The day number of the last day chrono's `NaiveDate` can hold (`NaiveDate::MAX`).
pub const MAX_DAY: i32 = 95_745_399;

/// The UTC calendar day (a day number) of an instant given in seconds since the
/// Unix epoch.
pub open spec fn utc_day(unix_secs: i64) -> int {
    (unix_secs as int) / 86_400 + 719_163
}

/// The calendar day (a day number) that a clock set `offset_secs` seconds ahead of
/// UTC shows at an instant given in seconds since the Unix epoch.
pub open spec fn day_at_offset(unix_secs: int, offset_secs: int) -> int {
    (unix_secs + offset_secs) / 86_400 + 719_163
}

/// `d` is the calendar day at `unix_secs` in some time zone: one whose offset from
/// UTC is less than a day either way, as every offset chrono can hold is.
pub open spec fn day_in_some_zone(unix_secs: int, d: int) -> bool {
    exists|o: int| -86_400 < o < 86_400 && d == #[trigger] day_at_offset(unix_secs, o)
}

/// Calls chrono's `Local.timestamp_opt(unix_secs, 0).single()` and gives the local
/// calendar day of the result as a day number (`date_naive().num_days_from_ce()`).
/// chrono gives no time exactly where the instant's UTC day lies outside the days a
/// `NaiveDate` can hold; otherwise the local day is the calendar day of the instant
/// moved by the zone's offset at that instant (`FixedOffset`, less than a day either
/// way). Which offset that is, is not claimed: chrono reads the machine's time zone
/// (the `TZ` variable or `/etc/localtime`) anew as it runs. On the first and last
/// day a `NaiveDate` can hold, the local day may fall outside that range and chrono
/// panics, so those days are left out.
#[verifier::external_body]
fn local_day_of(unix_secs: i64) -> (r: Option<i32>)
    requires
        utc_day(unix_secs) != MIN_DAY,
        utc_day(unix_secs) != MAX_DAY,
    ensures
        r is None <==> (utc_day(unix_secs) < MIN_DAY || utc_day(unix_secs) > MAX_DAY),
        r matches Some(d) ==> utc_day(unix_secs) - 1 <= d <= utc_day(unix_secs) + 1,
        r matches Some(d) ==> day_in_some_zone(unix_secs as int, d as int),
{
    chrono::TimeZone::timestamp_opt(&chrono::Local, unix_secs, 0).single().map(
        |t| chrono::Datelike::num_days_from_ce(&t.date_naive()),
    )
}

/// Whether `local_date` is defined at `unix_secs`: not on the first or last day that
/// chrono's dates can hold, where the local day may leave that range.
pub fn local_date_defined(unix_secs: i64) -> (b: bool)
    ensures
        b == (utc_day(unix_secs) != MIN_DAY && utc_day(unix_secs) != MAX_DAY),
{
    let on_first = -8_334_601_228_800 <= unix_secs && unix_secs < -8_334_601_142_400;
    let on_last = 8_210_266_790_400 <= unix_secs && unix_secs < 8_210_266_876_800;
    !on_first && !on_last
}

/// The day number of 1970-01-01.
pub const EPOCH_DAY: i32 = 719_163;

/// The day a commit counts for, given the local day of its time (`at`, `None` where
/// the local zone cannot place it) and the local day of the Unix epoch (`epoch`):
/// the former, else the latter, else the epoch's day in UTC.
pub fn day_or_epoch(at: Option<i32>, epoch: Option<i32>) -> (d: i32)
    ensures
        d == match at {
            Some(x) => x,
            None => match epoch {
                Some(y) => y,
                None => EPOCH_DAY,
            },
        },
{
    match at {
        Some(x) => x,
        None => match epoch {
            Some(y) => y,
            None => EPOCH_DAY,
        },
    }
}

/// The local calendar day (a day number as in `DailySnapshot::date`) of a commit
/// time given in seconds since the Unix epoch: the day a clock in the machine's time
/// zone shows at that instant, so within a day of its UTC day; for a time beyond the
/// days chrono can hold, the local day of 1970-01-01 00:00 UTC.
pub fn local_date(unix_secs: i64) -> (d: i32)
    requires
        utc_day(unix_secs) != MIN_DAY,
        utc_day(unix_secs) != MAX_DAY,
    ensures
        MIN_DAY <= utc_day(unix_secs) <= MAX_DAY ==> utc_day(unix_secs) - 1 <= d <= utc_day(
            unix_secs,
        ) + 1,
        !(MIN_DAY <= utc_day(unix_secs) <= MAX_DAY) ==> EPOCH_DAY - 1 <= d <= EPOCH_DAY + 1,
        MIN_DAY <= utc_day(unix_secs) <= MAX_DAY ==> day_in_some_zone(unix_secs as int, d as int),
        !(MIN_DAY <= utc_day(unix_secs) <= MAX_DAY) ==> day_in_some_zone(0, d as int),
{
    let at = local_day_of(unix_secs);
    match at {
        Some(d) => d,
        None => {
            let epoch = local_day_of(0);
            assert(EPOCH_DAY == day_at_offset(0, 0));
            day_or_epoch(at, epoch)
        },
    }
}

/// In a zone whose clock shows UTC, the local day of an instant is its UTC day.
pub proof fn lemma_utc_clock_shows_utc_day(unix_secs: i64)
    ensures
        day_at_offset(unix_secs as int, 0) == utc_day(unix_secs),
{
}

/// For one zone offset, a later instant never falls on an earlier local day.
pub proof fn lemma_local_day_keeps_time_order(s1: int, s2: int, offset_secs: int)
    requires
        s1 <= s2,
    ensures
        day_at_offset(s1, offset_secs) <= day_at_offset(s2, offset_secs),
{
    vstd::arithmetic::div_mod::lemma_div_is_ordered(s1 + offset_secs, s2 + offset_secs, 86_400);
}

/// For one zone offset, every instant between two instants of one local day falls on
/// that day too.
pub proof fn lemma_one_local_day_is_an_interval(s1: int, s: int, s2: int, offset_secs: int)
    requires
        s1 <= s <= s2,
        day_at_offset(s1, offset_secs) == day_at_offset(s2, offset_secs),
    ensures
        day_at_offset(s, offset_secs) == day_at_offset(s1, offset_secs),
{
    lemma_local_day_keeps_time_order(s1, s, offset_secs);
    lemma_local_day_keeps_time_order(s, s2, offset_secs);
}

/// Instants of one local day, in a zone whose offset stays the same, are given one
/// day number, and instants of different local days different ones.
pub proof fn lemma_same_local_midnight_same_day(s1: int, s2: int, offset_secs: int)
    ensures
        (day_at_offset(s1, offset_secs) == day_at_offset(s2, offset_secs)) <==> ((s1
            + offset_secs) / 86_400 == (s2 + offset_secs) / 86_400),
{
}

/// The local day in any zone lies within a day of the UTC day, and is a day past it
/// only where the zone's clock has already passed midnight, a day before it only where
/// the zone's clock has not yet reached it.
pub proof fn lemma_local_day_near_utc_day(unix_secs: i64, offset_secs: int)
    requires
        -86_400 < offset_secs < 86_400,
    ensures
        utc_day(unix_secs) - 1 <= day_at_offset(unix_secs as int, offset_secs) <= utc_day(
            unix_secs,
        ) + 1,
        day_at_offset(unix_secs as int, offset_secs) == utc_day(unix_secs) + 1 ==> (unix_secs
            as int) % 86_400 + offset_secs >= 86_400,
        day_at_offset(unix_secs as int, offset_secs) == utc_day(unix_secs) - 1 ==> (unix_secs
            as int) % 86_400 + offset_secs < 0,
{
}

/// What a history walk reports while it runs and when it ends.
#[derive(Debug)]
pub enum WalkMessage {
    Progress { processed: usize, total: usize },
    Done(Box<RepoData>),
    Failed(String),
}

proof fn lemma_ascending_same_values(x: Seq<i32>, y: Seq<i32>)
    requires
        forall|i: int, j: int| 0 <= i < j < x.len() ==> x[i] < x[j],
        forall|i: int, j: int| 0 <= i < j < y.len() ==> y[i] < y[j],
        forall|v: i32| x.contains(v) <==> y.contains(v),
    ensures
        x == y,
    decreases x.len(),
{
    if x.len() == 0 {
        if y.len() > 0 {
            assert(y.contains(y[0]));
        }
        assert(x =~= y);
    } else {
        assert(x.contains(x[0]));
        if y.len() == 0 {
            assert(false);
        }
        assert(y.contains(y[0]));
        let j = choose|j: int| 0 <= j < y.len() && y[j] == x[0];
        let i = choose|i: int| 0 <= i < x.len() && x[i] == y[0];
        if j > 0 {
            assert(y[0] < y[j]);
            if i > 0 {
                assert(x[0] < x[i]);
            }
        }
        assert(x[0] == y[0]);
        assert forall|v: i32| x.drop_first().contains(v) <==> y.drop_first().contains(v) by {
            if x.drop_first().contains(v) {
                let a = choose|a: int| 0 <= a < x.drop_first().len() && x.drop_first()[a] == v;
                assert(x[a + 1] == v);
                assert(x.contains(v));
                let b = choose|b: int| 0 <= b < y.len() && y[b] == v;
                if b == 0 {
                    assert(x[0] < x[a + 1]);
                }
                assert(y.drop_first()[b - 1] == v);
            }
            if y.drop_first().contains(v) {
                let a = choose|a: int| 0 <= a < y.drop_first().len() && y.drop_first()[a] == v;
                assert(y[a + 1] == v);
                assert(y.contains(v));
                let b = choose|b: int| 0 <= b < x.len() && x[b] == v;
                if b == 0 {
                    assert(y[0] < y[a + 1]);
                }
                assert(x.drop_first()[b - 1] == v);
            }
        }
        lemma_ascending_same_values(x.drop_first(), y.drop_first());
        assert(x =~= seq![x[0]] + x.drop_first());
        assert(y =~= seq![y[0]] + y.drop_first());
    }
}

/// The days that get a snapshot are exactly the days of the commits chart, in the
/// same order.
pub proof fn lemma_snapshot_days_are_commit_days(
    commits: Seq<CommitStamp>,
    picks: Seq<DayPick>,
    counts: Seq<(i32, u32)>,
)
    requires
        picks_last_per_day(commits, picks),
        counts_per_day(commits, counts),
    ensures
        picks.len() == counts.len(),
        forall|a: int| 0 <= a < picks.len() ==> #[trigger] picks[a].day == counts[a].0,
{
    let x = picks.map_values(|p: DayPick| p.day);
    let y = counts.map_values(|c: (i32, u32)| c.0);
    assert forall|v: i32| x.contains(v) <==> y.contains(v) by {
        if x.contains(v) {
            let a = choose|a: int| 0 <= a < x.len() && x[a] == v;
            let c = picks[a].commit as int;
            assert(commits[c].day == v);
            let b = choose|b: int| 0 <= b < counts.len() && #[trigger] counts[b].0 == commits[c].day;
            assert(y[b] == v);
        }
        if y.contains(v) {
            let b = choose|b: int| 0 <= b < y.len() && y[b] == v;
            assert(counts[b].1 > 0);
            assert(day_count(commits, v) > 0);
            let c = lemma_day_count_witness(commits, v);
            let a = choose|a: int| 0 <= a < picks.len() && #[trigger] picks[a].day == commits[c].day;
            assert(x[a] == v);
        }
    }
    lemma_ascending_same_values(x, y);
    assert forall|a: int| 0 <= a < picks.len() implies #[trigger] picks[a].day == counts[a].0 by {
        assert(x[a] == y[a]);
    }
}

proof fn lemma_day_count_witness(commits: Seq<CommitStamp>, d: i32) -> (c: int)
    requires
        day_count(commits, d) > 0,
    ensures
        0 <= c < commits.len(),
        commits[c].day == d,
    decreases commits.len(),
{
    if commits.last().day == d {
        commits.len() - 1
    } else {
        let c = lemma_day_count_witness(commits.drop_last(), d);
        assert(commits.drop_last()[c] == commits[c]);
        c
    }
}

/// A tree's tally is empty or has code lines: no snapshot shows files that add up
/// to nothing.
pub proof fn lemma_tally_has_lines(blobs: Seq<(String, BlobOutcome)>, files: Seq<FileStats>)
    requires
        tallies(blobs, files),
    ensures
        files.len() == 0 || all_lines(files) > 0,
{
    if files.len() > 0 {
        lemma_all_lines_positive(files);
    }
}

proof fn lemma_all_lines_positive(files: Seq<FileStats>)
    requires
        files.len() > 0,
        forall|a: int| 0 <= a < files.len() ==> #[trigger] files[a].code_lines > 0,
    ensures
        all_lines(files) > 0,
{
    assert(files[files.len() - 1].code_lines > 0);
}

/// Every bucket of every assembled snapshot is among the assembled extensions.
pub proof fn lemma_assembled_extensions_cover(snapshots: Seq<DailySnapshot>, data: RepoData)
    requires
        data.snapshots@.to_multiset() == snapshots.to_multiset(),
        forall|ext: Seq<char>|
            views_of(data.all_extensions@).contains(ext) <==> has_extension(snapshots, ext),
    ensures
        forall|s: int, j: int|
            #![trigger data.snapshots@[s].files@[j]]
            0 <= s < data.snapshots@.len() && 0 <= j < data.snapshots@[s].files@.len()
                ==> views_of(data.all_extensions@).contains(data.snapshots@[s].files@[j].extension@),
{
    assert forall|s: int, j: int|
        0 <= s < data.snapshots@.len() && 0 <= j < data.snapshots@[s].files@.len() implies views_of(
        data.all_extensions@,
    ).contains(#[trigger] data.snapshots@[s].files@[j].extension@) by {
        let snap = data.snapshots@[s];
        assert(data.snapshots@.contains(snap));
        vstd::seq_lib::to_multiset_contains(data.snapshots@, snap);
        vstd::seq_lib::to_multiset_contains(snapshots, snap);
        let k = choose|k: int| 0 <= k < snapshots.len() && snapshots[k] == snap;
        assert(snapshots[k].files@[j].extension@ == snap.files@[j].extension@);
        assert(has_extension(snapshots, snap.files@[j].extension@));
    }
}


/// No two snapshots share a day.
pub open spec fn distinct_days(snaps: Seq<DailySnapshot>) -> bool {
    forall|i: int, j: int| 0 <= i < j < snaps.len() ==> snaps[i].date != snaps[j].date
}

proof fn lemma_ordered_same_elements(x: Seq<DailySnapshot>, y: Seq<DailySnapshot>, s: Seq<DailySnapshot>)
    requires
        by_day(x),
        by_day(y),
        x.to_multiset() == y.to_multiset(),
        forall|a: DailySnapshot| x.contains(a) ==> s.contains(a),
        distinct_days(s),
    ensures
        x == y,
    decreases x.len(),
{
    vstd::seq_lib::to_multiset_len(x);
    vstd::seq_lib::to_multiset_len(y);
    if x.len() == 0 {
        assert(x =~= y);
    } else {
        let x0 = x[0];
        let y0 = y[0];
        vstd::seq_lib::to_multiset_contains(x, x0);
        vstd::seq_lib::to_multiset_contains(y, x0);
        vstd::seq_lib::to_multiset_contains(x, y0);
        vstd::seq_lib::to_multiset_contains(y, y0);
        assert(x.contains(x0));
        assert(y.contains(y0));
        let i = choose|i: int| 0 <= i < y.len() && y[i] == x0;
        let j = choose|j: int| 0 <= j < x.len() && x[j] == y0;
        if i > 0 {
            assert(y[0].date <= y[i].date);
        }
        if j > 0 {
            assert(x[0].date <= x[j].date);
        }
        assert(x0.date == y0.date);
        if x0 != y0 {
            assert(s.contains(x0));
            assert(s.contains(y0));
            let p = choose|p: int| 0 <= p < s.len() && s[p] == x0;
            let q = choose|q: int| 0 <= q < s.len() && s[q] == y0;
            if p < q {
                assert(s[p].date != s[q].date);
            } else {
                assert(s[q].date != s[p].date);
            }
        }
        vstd::seq_lib::to_multiset_remove(x, 0);
        vstd::seq_lib::to_multiset_remove(y, 0);
        assert(x.remove(0) =~= x.drop_first());
        assert(y.remove(0) =~= y.drop_first());
        assert forall|a: DailySnapshot| x.drop_first().contains(a) implies s.contains(a) by {
            let k = choose|k: int| 0 <= k < x.drop_first().len() && x.drop_first()[k] == a;
            assert(x[k + 1] == a);
            assert(x.contains(a));
        }
        lemma_ordered_same_elements(x.drop_first(), y.drop_first(), s);
        assert(x =~= seq![x0] + x.drop_first());
        assert(y =~= seq![y0] + y.drop_first());
    }
}

proof fn lemma_ascending_same_strings(x: Seq<Seq<char>>, y: Seq<Seq<char>>)
    requires
        ascending(x),
        ascending(y),
        forall|v: Seq<char>| x.contains(v) <==> y.contains(v),
    ensures
        x == y,
    decreases x.len(),
{
    if x.len() == 0 {
        if y.len() > 0 {
            assert(y.contains(y[0]));
        }
        assert(x =~= y);
    } else {
        assert(x.contains(x[0]));
        assert(y.contains(y[0]));
        let j = choose|j: int| 0 <= j < y.len() && y[j] == x[0];
        let i = choose|i: int| 0 <= i < x.len() && x[i] == y[0];
        if j > 0 && i > 0 {
            lemma_before_transitive(y[0], x[0], y[0]);
            lemma_before_irreflexive(y[0]);
        } else if j > 0 {
            lemma_before_irreflexive(x[0]);
        } else if i > 0 {
            lemma_before_irreflexive(y[0]);
        }
        assert forall|v: Seq<char>| x.drop_first().contains(v) <==> y.drop_first().contains(v) by {
            if x.drop_first().contains(v) {
                let a = choose|a: int| 0 <= a < x.drop_first().len() && x.drop_first()[a] == v;
                assert(x[a + 1] == v);
                assert(x.contains(v));
                let b = choose|b: int| 0 <= b < y.len() && y[b] == v;
                if b == 0 {
                    assert(chars_before(x[0], x[a + 1]));
                    lemma_before_irreflexive(v);
                }
                assert(y.drop_first()[b - 1] == v);
            }
            if y.drop_first().contains(v) {
                let a = choose|a: int| 0 <= a < y.drop_first().len() && y.drop_first()[a] == v;
                assert(y[a + 1] == v);
                assert(y.contains(v));
                let b = choose|b: int| 0 <= b < x.len() && x[b] == v;
                if b == 0 {
                    assert(chars_before(y[0], y[a + 1]));
                    lemma_before_irreflexive(v);
                }
                assert(x.drop_first()[b - 1] == v);
            }
        }
        lemma_ascending_same_strings(x.drop_first(), y.drop_first());
        assert(x =~= seq![x[0]] + x.drop_first());
        assert(y =~= seq![y[0]] + y.drop_first());
    }
}

/// The assembled result does not depend on the order in which the per-day snapshots
/// arrive: for the same snapshots (one per day) delivered in any two orders, the
/// assembled snapshots and extensions are the same.
pub proof fn lemma_assembly_ignores_delivery_order(
    s1: Seq<DailySnapshot>,
    s2: Seq<DailySnapshot>,
    d1: RepoData,
    d2: RepoData,
)
    requires
        s1.to_multiset() == s2.to_multiset(),
        distinct_days(s1),
        by_day(d1.snapshots@),
        d1.snapshots@.to_multiset() == s1.to_multiset(),
        ascending(views_of(d1.all_extensions@)),
        forall|ext: Seq<char>|
            views_of(d1.all_extensions@).contains(ext) <==> has_extension(s1, ext),
        by_day(d2.snapshots@),
        d2.snapshots@.to_multiset() == s2.to_multiset(),
        ascending(views_of(d2.all_extensions@)),
        forall|ext: Seq<char>|
            views_of(d2.all_extensions@).contains(ext) <==> has_extension(s2, ext),
    ensures
        d1.snapshots@ == d2.snapshots@,
        views_of(d1.all_extensions@) == views_of(d2.all_extensions@),
{
    assert forall|a: DailySnapshot| d1.snapshots@.contains(a) implies s1.contains(a) by {
        vstd::seq_lib::to_multiset_contains(d1.snapshots@, a);
        vstd::seq_lib::to_multiset_contains(s1, a);
    }
    lemma_ordered_same_elements(d1.snapshots@, d2.snapshots@, s1);
    assert forall|ext: Seq<char>| has_extension(s1, ext) <==> has_extension(s2, ext) by {
        if has_extension(s1, ext) {
            let (a, b) = choose|a: int, b: int|
                0 <= a < s1.len() && 0 <= b < s1[a].files.len() && #[trigger] s1[a].files@[b].extension@
                    == ext;
            vstd::seq_lib::to_multiset_contains(s1, s1[a]);
            vstd::seq_lib::to_multiset_contains(s2, s1[a]);
            assert(s1.contains(s1[a]));
            let k = choose|k: int| 0 <= k < s2.len() && s2[k] == s1[a];
            assert(s2[k].files@[b].extension@ == ext);
        }
        if has_extension(s2, ext) {
            let (a, b) = choose|a: int, b: int|
                0 <= a < s2.len() && 0 <= b < s2[a].files.len() && #[trigger] s2[a].files@[b].extension@
                    == ext;
            vstd::seq_lib::to_multiset_contains(s2, s2[a]);
            vstd::seq_lib::to_multiset_contains(s1, s2[a]);
            assert(s2.contains(s2[a]));
            let k = choose|k: int| 0 <= k < s1.len() && s1[k] == s2[a];
            assert(s1[k].files@[b].extension@ == ext);
        }
    }
    assert forall|v: Seq<char>| views_of(d1.all_extensions@).contains(v) <==> views_of(
        d2.all_extensions@,
    ).contains(v) by {
        assert(has_extension(s1, v) <==> has_extension(s2, v));
    }
    lemma_ascending_same_strings(views_of(d1.all_extensions@), views_of(d2.all_extensions@));
}

} // verus!
