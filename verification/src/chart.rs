//! The points of a time-series chart and the extent of its axes.
use crate::app::{short_count, short_count_text};
use vstd::prelude::*;

verus! {

/// A line chart over days: `points` are (day number, value) in order of day.
#[derive(Debug, Clone)]
pub struct LocChart {
    pub points: Vec<(i32, u64)>,
    pub unit_label: String,
}

/// The extent of a chart's axes: days `x_min..x_max`, values `0..y_top`.
#[derive(Debug, Clone, Copy, PartialEq, Eq)]
pub struct ChartBounds {
    pub x_min: i32,
    pub x_max: i32,
    pub y_top: u64,
}

/// The largest value of the points, or 0 where there is none.
pub open spec fn max_value(points: Seq<(i32, u64)>) -> nat
    decreases points.len(),
{
    if points.len() == 0 {
        0
    } else {
        let m = max_value(points.drop_last());
        if points.last().1 > m {
            points.last().1 as nat
        } else {
            m
        }
    }
}

/// The value the y axis starts from before headroom: the largest value, at least 1.
pub open spec fn y_peak(points: Seq<(i32, u64)>) -> nat {
    if max_value(points) > 1 {
        max_value(points)
    } else {
        1
    }
}

/// The top of the y axis: the peak plus a tenth of it, and at least 1 more.
pub open spec fn y_top_of(points: Seq<(i32, u64)>) -> nat {
    let m = y_peak(points);
    m + if m / 10 > 1 {
        m / 10
    } else {
        1
    }
}

proof fn lemma_max_value_bounds(points: Seq<(i32, u64)>, i: int)
    requires
        0 <= i < points.len(),
    ensures
        points[i].1 <= max_value(points),
    decreases points.len(),
{
    if i < points.len() - 1 {
        lemma_max_value_bounds(points.drop_last(), i);
    }
}

impl LocChart {
    /// A chart of lines of code over the given points.
    pub fn new(points: Vec<(i32, u64)>) -> (c: LocChart)
        ensures
            c.points@ == points@,
            c.unit_label@ == seq!['L', 'O', 'C'],
    {
        proof {
            reveal_strlit("LOC");
        }
        LocChart { points, unit_label: String::from_str("LOC") }
    }

    /// A chart of the given points, with the values' unit named `unit_label`.
    pub fn labelled(points: Vec<(i32, u64)>, unit_label: String) -> (c: LocChart)
        ensures
            c.points@ == points@,
            c.unit_label@ == unit_label@,
    {
        LocChart { points, unit_label }
    }

    /// The extent of the axes: from the first point's day to the last point's day,
    /// and from 0 to the largest value (at least 1) plus a tenth of it (at least 1);
    /// `None` for a chart without points, which draws nothing.
    pub fn bounds(&self) -> (b: Option<ChartBounds>)
        requires
            y_top_of(self.points@) <= u64::MAX,
        ensures
            self.points@.len() == 0 <==> b is None,
            b matches Some(r) ==> r.x_min == self.points@[0].0 && r.x_max == self.points@.last().0
                && r.y_top == y_top_of(self.points@),
    {
        let n = self.points.len();
        if n == 0 {
            return None;
        }
        let mut m: u64 = 0;
        let mut i: usize = 0;
        while i < n
            invariant
                n == self.points@.len(),
                i <= n,
                m == max_value(self.points@.take(i as int)),
            decreases n - i,
        {
            assert(self.points@.take(i + 1).drop_last() =~= self.points@.take(i as int));
            if self.points[i].1 > m {
                m = self.points[i].1;
            }
            i = i + 1;
        }
        assert(self.points@.take(n as int) =~= self.points@);
        let peak = if m > 1 { m } else { 1 };
        let headroom = if peak / 10 > 1 { peak / 10 } else { 1 };
        Some(ChartBounds { x_min: self.points[0].0, x_max: self.points[n - 1].0, y_top: peak + headroom })
    }
}

/// Every point lies below the top of the y axis.
pub proof fn lemma_points_below_top(points: Seq<(i32, u64)>, i: int)
    requires
        0 <= i < points.len(),
    ensures
        points[i].1 < y_top_of(points),
{
    lemma_max_value_bounds(points, i);
}

/// A y-axis label: the value in short form (`999`, `1.2k`, `3.4M`).
pub fn format_count(v: u64) -> (s: String)
    ensures
        s@ == short_count_text(v as nat),
{
    short_count(v)
}

} // verus!
