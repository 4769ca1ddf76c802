//! The sweep from the highest point down that cuts a set of edges into
//! monotone polygons.
//!
//! The sweep keeps a list of intervals, each bounded by a left and a right
//! active segment and carrying the monotone polygons that are growing in it,
//! and a table from each active segment to the interval that it bounds.
use crate::monotone_polygon::{close_all, views, MonotonePolygon, MonotonePolygonView};
use crate::point::{Point, Segment};
pub use crate::point_edges::{
    get_left_right_edges_bottom, get_left_right_edges_top, get_point_type, get_points_edges,
    left_right_share_bottom, left_right_share_top, PointEdgeInfo, PointToEdges, PointType,
};
use crate::point_edges::{
    lemma_describes_unique, sort_segments, spec_point_type, spec_sort_segments,
    PointTypeView,
};
use std::collections::{BTreeSet, HashMap};
use vstd::prelude::*;

verus! {

broadcast use {vstd::std_specs::hash::group_hash_axioms, vstd::std_specs::btree::group_btree_axioms};

/// A strip between two active segments, with the polygons growing in it.
#[derive(Debug)]
pub struct Interval {
    pub last_seen: Point,
    pub left_segment: Segment,
    pub right_segment: Segment,
    pub polygons_list: Vec<MonotonePolygon>,
}

/// What an interval holds, as mathematical values.
pub struct IntervalView {
    pub last_seen: Point,
    pub left_segment: Segment,
    pub right_segment: Segment,
    pub polygons: Seq<MonotonePolygonView>,
}

/// Why the sweep cannot go on: the table of active segments and the intervals
/// no longer agree.
#[derive(Debug, Clone, Copy, PartialEq, Eq, Structural)]
pub enum SweepError {
    /// A segment that ends or turns at the event point bounds no interval.
    MissingInterval,
    /// The interval found for a segment has other segments as its sides.
    SegmentNotInInterval,
    /// After the event a side of the interval would not be active.
    BrokenInterval,
    /// At a point where several edges meet, a segment that leaves downwards
    /// has no partner to open an interval with.
    UnpairedSegment,
}

/// The state of the sweep: the table of active segments, all intervals opened
/// so far, and the finished polygons.
pub struct SweepState {
    pub lines: Map<Segment, int>,
    pub intervals: Seq<IntervalView>,
    pub polygons: Seq<MonotonePolygonView>,
}

/// The state after a step, and the error if the step could not be made.
pub struct Outcome {
    pub state: SweepState,
    pub error: Option<SweepError>,
}

/// The segments that meet in a point, sorted out: the state after the
/// intervals that end in the point have ended, the segments of those
/// intervals, the other segments that arrive from above, and those that leave
/// downwards.
pub struct SortedOut {
    pub state: SweepState,
    pub error: Option<SweepError>,
    pub processed: Seq<Segment>,
    pub tops: Seq<Segment>,
    pub bottoms: Seq<Segment>,
}

/// The state while the sides of a point where several edges meet are
/// continued: how many of the segments from above have been used from the
/// left, and which of the segments that leave downwards are still free.
pub struct Stage {
    pub state: SweepState,
    pub error: Option<SweepError>,
    pub top_begin: int,
    pub bottom_begin: int,
    pub bottom_end: int,
}

impl View for Interval {
    type V = IntervalView;

    open spec fn view(&self) -> IntervalView {
        IntervalView {
            last_seen: self.last_seen,
            left_segment: self.left_segment,
            right_segment: self.right_segment,
            polygons: views(self.polygons_list@),
        }
    }
}

/// Every polygon of the list has its lowest point.
pub open spec fn all_finished(polygons: Seq<MonotonePolygon>) -> bool {
    forall|i: int| 0 <= i < polygons.len() ==> (#[trigger] polygons[i])@.bottom.is_some()
}

/// The views of a list of intervals.
pub open spec fn interval_views(intervals: Seq<Interval>) -> Seq<IntervalView> {
    intervals.map_values(|i: Interval| i@)
}

/// The table of active segments that a table of segment keys stands for.
pub open spec fn lines_of(table: Map<u128, usize>) -> Map<Segment, int> {
    Map::new(
        |s: Segment| table.contains_key(s.spec_key()),
        |s: Segment| table[s.spec_key()] as int,
    )
}

/// The list with `p` added to the right chain of its last polygon.
pub open spec fn push_right_last(polygons: Seq<MonotonePolygonView>, p: Point) -> Seq<
    MonotonePolygonView,
> {
    if polygons.len() == 0 {
        polygons
    } else {
        polygons.update(polygons.len() - 1, polygons.last().push_right(p))
    }
}

/// The list with `p` added to the left chain of its first polygon.
pub open spec fn push_left_first(polygons: Seq<MonotonePolygonView>, p: Point) -> Seq<
    MonotonePolygonView,
> {
    if polygons.len() == 0 {
        polygons
    } else {
        polygons.update(0, polygons[0].push_left(p))
    }
}

impl IntervalView {
    /// `segment` is a side of the interval.
    pub open spec fn has_side(self, segment: Segment) -> bool {
        self.left_segment == segment || self.right_segment == segment
    }

    /// The interval with the side `old_segment` exchanged for `new_segment`;
    /// the left side is looked at first.
    pub open spec fn replace_segment(self, old_segment: Segment, new_segment: Segment) -> Self {
        if self.left_segment == old_segment {
            IntervalView { left_segment: new_segment, ..self }
        } else if self.right_segment == old_segment {
            IntervalView { right_segment: new_segment, ..self }
        } else {
            self
        }
    }

    /// The other side than `segment`.
    pub open spec fn opposite_segment(self, segment: Segment) -> Segment {
        if segment == self.left_segment {
            self.right_segment
        } else {
            self.left_segment
        }
    }
}

impl Interval {
    /// The interval between `left` and `right`, last seen at `p`, without a
    /// polygon.
    pub fn new(p: Point, left: Segment, right: Segment) -> (r: Self)
        ensures
            r@ == (IntervalView {
                last_seen: p,
                left_segment: left,
                right_segment: right,
                polygons: Seq::empty(),
            }),
    {
        let r = Interval {
            last_seen: p,
            left_segment: left,
            right_segment: right,
            polygons_list: Vec::new(),
        };
        assert(r@.polygons =~= Seq::empty());
        r
    }

    /// The interval between `left` and `right`, last seen at `p`, with one
    /// polygon.
    pub fn with_polygon(p: Point, left: Segment, right: Segment, polygon: MonotonePolygon) -> (r:
        Self)
        ensures
            r@ == (IntervalView {
                last_seen: p,
                left_segment: left,
                right_segment: right,
                polygons: seq![polygon@],
            }),
    {
        let mut polygons_list: Vec<MonotonePolygon> = Vec::new();
        polygons_list.push(polygon);
        let r = Interval { last_seen: p, left_segment: left, right_segment: right, polygons_list };
        assert(r@.polygons =~= seq![polygon@]);
        r
    }

    /// Exchanges the side `old_segment` for `new_segment`.
    pub fn replace_segment(&mut self, old_segment: &Segment, new_segment: Segment)
        requires
            old(self)@.has_side(*old_segment),
        ensures
            final(self)@ == old(self)@.replace_segment(*old_segment, new_segment),
    {
        if self.left_segment == *old_segment {
            self.left_segment = new_segment;
        } else {
            self.right_segment = new_segment;
        }
    }

    /// The other side than `segment`.
    pub fn opposite_segment(&self, segment: &Segment) -> (r: Segment)
        requires
            self@.has_side(*segment),
        ensures
            r == self@.opposite_segment(*segment),
    {
        if *segment == self.left_segment {
            self.right_segment
        } else {
            self.left_segment
        }
    }
}

impl SweepError {
    /// The words for each way in which the sweep can fail.
    pub open spec fn spec_message(self) -> Seq<char> {
        match self {
            SweepError::MissingInterval => "Segment not found in the map"@,
            SweepError::SegmentNotInInterval => "Segment not found in interval"@,
            SweepError::BrokenInterval => "A side of the interval is not found in the map"@,
            SweepError::UnpairedSegment => "A segment at a point of several edges has no partner"@,
        }
    }

    /// What went wrong, in words.
    pub fn message(&self) -> (r: &'static str)
        ensures
            r@ == self.spec_message(),
    {
        match self {
            SweepError::MissingInterval => "Segment not found in the map",
            SweepError::SegmentNotInInterval => "Segment not found in interval",
            SweepError::BrokenInterval => "A side of the interval is not found in the map",
            SweepError::UnpairedSegment => "A segment at a point of several edges has no partner",
        }
    }
}

impl Outcome {
    /// The step was made.
    pub open spec fn ok(state: SweepState) -> Outcome {
        Outcome { state, error: None }
    }

    /// The step could not be made.
    pub open spec fn fail(state: SweepState, error: SweepError) -> Outcome {
        Outcome { state, error: Some(error) }
    }
}

impl SweepState {
    /// The interval that `segment` bounds, if it is active.
    pub open spec fn line(self, segment: Segment) -> Option<int> {
        if self.lines.contains_key(segment) {
            Some(self.lines[segment])
        } else {
            None
        }
    }

    /// A start event: a new interval between the two segments that leave
    /// `p` downwards, with a new polygon whose top is `p`.
    pub open spec fn start(self, p: Point, edge_left: Segment, edge_right: Segment) -> SweepState {
        let n = self.intervals.len() as int;
        SweepState {
            lines: self.lines.insert(edge_left, n).insert(edge_right, n),
            intervals: self.intervals.push(
                IntervalView {
                    last_seen: p,
                    left_segment: edge_left,
                    right_segment: edge_right,
                    polygons: seq![MonotonePolygonView::new(p)],
                },
            ),
            polygons: self.polygons,
        }
    }

    /// An end event: all polygons of the interval are closed at `p` and handed
    /// out, and the two segments stop being active.
    pub open spec fn end(
        self,
        p: Point,
        edge_left: Segment,
        edge_right: Segment,
        interval: int,
    ) -> SweepState {
        SweepState {
            lines: self.lines.remove(edge_left).remove(edge_right),
            intervals: self.intervals,
            polygons: self.polygons + close_all(self.intervals[interval].polygons, p),
        }
    }

    /// A merge event at `p`, where `edge_left` and `edge_right` arrive from
    /// above. Where both bound one interval, that interval ends. Otherwise
    /// the interval of `edge_left` takes over the right side and the polygons
    /// of the interval of `edge_right`, and `p` goes to the right chain of the
    /// last polygon of the one and to the left chain of the first polygon of
    /// the other.
    ///
    /// The step is not made, and the state stays as it is, where one of the
    /// two segments is not active, where `edge_right` is the right side of its
    /// interval instead of the left one, or where the right side of that
    /// interval is not active.
    pub open spec fn merge(self, p: Point, edge_left: Segment, edge_right: Segment) -> Outcome {
        if !self.lines.contains_key(edge_left) || !self.lines.contains_key(edge_right) {
            Outcome::fail(self, SweepError::MissingInterval)
        } else {
            let li = self.lines[edge_left];
            let ri = self.lines[edge_right];
            let left = self.intervals[li];
            let right = self.intervals[ri];
            let outer = right.right_segment;
            if li == ri {
                Outcome::ok(self.end(p, edge_left, edge_right, li))
            } else if outer == edge_right {
                Outcome::fail(self, SweepError::SegmentNotInInterval)
            } else if !self.lines.remove(edge_right).remove(edge_left).contains_key(outer) {
                Outcome::fail(self, SweepError::BrokenInterval)
            } else {
                let joined = IntervalView {
                    last_seen: p,
                    left_segment: left.left_segment,
                    right_segment: outer,
                    polygons: push_right_last(left.polygons, p) + push_left_first(
                        right.polygons,
                        p,
                    ),
                };
                let emptied = IntervalView { polygons: Seq::empty(), ..right };
                Outcome::ok(
                    SweepState {
                        lines: self.lines.remove(edge_right).remove(edge_left).insert(outer, li),
                        intervals: self.intervals.update(li, joined).update(ri, emptied),
                        polygons: self.polygons,
                    },
                )
            }
        }
    }

    /// A normal event at `p`, where `edge_top` arrives from above and
    /// `edge_bottom` leaves downwards: the interval of `edge_top` gets
    /// `edge_bottom` in its place. Of several polygons only the one on the
    /// side of `edge_top` stays, the others are closed at `p`; `p` goes to the
    /// chain of that polygon on the side of `edge_top`.
    ///
    /// The step is not made, and the state stays as it is, where `edge_top`
    /// is not active, where it is not a side of its interval, or where a side
    /// of the interval would not be active after the step.
    pub open spec fn normal(self, p: Point, edge_top: Segment, edge_bottom: Segment) -> Outcome {
        if !self.lines.contains_key(edge_top) {
            Outcome::fail(self, SweepError::MissingInterval)
        } else {
            let i = self.lines[edge_top];
            let interval = self.intervals[i];
            let on_right = edge_top == interval.right_segment;
            let replaced = interval.replace_segment(edge_top, edge_bottom);
            let lines = self.lines.insert(edge_bottom, i).remove(edge_top);
            let several = interval.polygons.len() > 1;
            let kept = if !several {
                interval.polygons
            } else if on_right {
                seq![interval.polygons[0]]
            } else {
                seq![interval.polygons.last()]
            };
            let closed = if !several {
                Seq::empty()
            } else if on_right {
                close_all(interval.polygons.skip(1), p)
            } else {
                close_all(interval.polygons.drop_last(), p)
            };
            let extended = if kept.len() == 0 {
                kept
            } else if on_right {
                seq![kept[0].push_right(p)]
            } else {
                seq![kept[0].push_left(p)]
            };
            if !interval.has_side(edge_top) {
                Outcome::fail(self, SweepError::SegmentNotInInterval)
            } else if !lines.contains_key(replaced.left_segment) || !lines.contains_key(
                replaced.right_segment,
            ) {
                Outcome::fail(self, SweepError::BrokenInterval)
            } else {
                Outcome::ok(
                    SweepState {
                        lines,
                        intervals: self.intervals.update(
                            i,
                            IntervalView { last_seen: p, polygons: extended, ..replaced },
                        ),
                        polygons: self.polygons + closed,
                    },
                )
            }
        }
    }

    /// The interval number `i` is entered in the table under its left side,
    /// and at the height of `p` its left side passes strictly left of `p` and
    /// its right side strictly right of `p`.
    pub open spec fn holds_point(self, i: int, p: Point) -> bool {
        &&& 0 <= i < self.intervals.len()
        &&& self.line(self.intervals[i].left_segment) == Some(i)
        &&& self.intervals[i].left_segment.spec_passes_left_of(p)
        &&& self.intervals[i].right_segment.spec_passes_right_of(p)
    }

    /// The first interval from number `from` on that holds `p`.
    pub open spec fn interval_with_point_from(self, p: Point, from: int) -> Option<int>
        decreases self.intervals.len() - from,
    {
        if from < 0 || from >= self.intervals.len() {
            None
        } else if self.holds_point(from, p) {
            Some(from)
        } else {
            self.interval_with_point_from(p, from + 1)
        }
    }

    /// The first interval that holds `p`.
    pub open spec fn interval_with_point(self, p: Point) -> Option<int> {
        self.interval_with_point_from(p, 0)
    }

    /// A split event at `p`, from which `edge_left` and `edge_right` leave
    /// downwards. Where no interval holds `p`, this is a start event.
    /// Otherwise the interval that holds `p` ends at `edge_left`, and a new
    /// interval runs from `edge_right` to its former right side. A single
    /// polygon gets `p` on its right chain, and the new interval a new polygon
    /// with `p` on its left chain, whose top is the last point of that right
    /// chain before `p`, or the top of the polygon where the chain was empty.
    /// Of several polygons the first stays with `p` on its right chain, the
    /// last moves to the new interval with `p` on its left chain, and those
    /// between are closed at `p`.
    pub open spec fn split(self, p: Point, edge_left: Segment, edge_right: Segment) -> SweepState {
        match self.interval_with_point(p) {
            None => self.start(p, edge_left, edge_right),
            Some(i) => {
                let interval = self.intervals[i];
                let n = self.intervals.len() as int;
                let outer = interval.right_segment;
                let polygons = interval.polygons;
                let kept = if polygons.len() == 0 {
                    polygons
                } else {
                    seq![polygons[0].push_right(p)]
                };
                let moved = if polygons.len() == 0 {
                    polygons
                } else if polygons.len() == 1 {
                    seq![
                        MonotonePolygonView::new(
                            if polygons[0].right.len() == 0 {
                                polygons[0].top
                            } else {
                                polygons[0].right.last()
                            },
                        ).push_left(p),
                    ]
                } else {
                    seq![polygons.last().push_left(p)]
                };
                let closed = if polygons.len() <= 2 {
                    Seq::empty()
                } else {
                    close_all(polygons.subrange(1, polygons.len() - 1), p)
                };
                SweepState {
                    lines: self.lines.insert(edge_left, i).insert(edge_right, n).insert(outer, n),
                    intervals: self.intervals.update(
                        i,
                        IntervalView {
                            last_seen: p,
                            left_segment: interval.left_segment,
                            right_segment: edge_left,
                            polygons: kept,
                        },
                    ).push(
                        IntervalView {
                            last_seen: p,
                            left_segment: edge_right,
                            right_segment: outer,
                            polygons: moved,
                        },
                    ),
                    polygons: self.polygons + closed,
                }
            },
        }
    }
}

impl SweepState {
    /// One segment of a point where several edges meet is sorted out. A
    /// segment of an interval that has ended is passed over. An active segment
    /// that ends in `p` together with the other side of its interval ends that
    /// interval. Any other segment goes to the segments from above where its
    /// lower end is `p`, and else to those that leave downwards.
    pub open spec fn sort_out_one(acc: SortedOut, p: Point, edge: Segment) -> SortedOut {
        let i = acc.state.lines[edge];
        let interval = acc.state.intervals[i];
        let opposite = interval.opposite_segment(edge);
        if acc.error.is_some() || acc.processed.contains(edge) {
            acc
        } else if acc.state.lines.contains_key(edge) && !interval.has_side(edge) {
            SortedOut { error: Some(SweepError::SegmentNotInInterval), ..acc }
        } else if acc.state.lines.contains_key(edge) && edge.bottom == p && opposite.bottom == p {
            SortedOut {
                state: acc.state.end(p, edge, opposite, i),
                processed: acc.processed.push(opposite).push(edge),
                ..acc
            }
        } else if edge.bottom == p {
            SortedOut { tops: acc.tops.push(edge), ..acc }
        } else {
            SortedOut { bottoms: acc.bottoms.push(edge), ..acc }
        }
    }

    /// The segments of a point where several edges meet, sorted out one after
    /// the other.
    pub open spec fn sort_out(self, p: Point, edges: Seq<Segment>) -> SortedOut
        decreases edges.len(),
    {
        if edges.len() == 0 {
            SortedOut {
                state: self,
                error: None,
                processed: Seq::empty(),
                tops: Seq::empty(),
                bottoms: Seq::empty(),
            }
        } else {
            Self::sort_out_one(self.sort_out(p, edges.drop_last()), p, edges.last())
        }
    }

    /// Where the leftmost segment from above is the right side of its
    /// interval, that interval goes on with the leftmost segment that leaves
    /// downwards.
    pub open spec fn continue_left(self, p: Point, tops: Seq<Segment>, bottoms: Seq<Segment>) -> Stage {
        let unchanged = Stage {
            state: self,
            error: None,
            top_begin: 0,
            bottom_begin: 0,
            bottom_end: bottoms.len() as int,
        };
        if tops.len() == 0 {
            unchanged
        } else if !self.lines.contains_key(tops[0]) {
            Stage { error: Some(SweepError::MissingInterval), ..unchanged }
        } else if tops[0] != self.intervals[self.lines[tops[0]]].right_segment {
            unchanged
        } else if bottoms.len() == 0 {
            Stage { error: Some(SweepError::UnpairedSegment), ..unchanged }
        } else {
            let out = self.normal(p, tops[0], bottoms[0]);
            Stage {
                state: out.state,
                error: out.error,
                top_begin: 1,
                bottom_begin: 1,
                bottom_end: bottoms.len() as int,
            }
        }
    }

    /// Where a segment from above is left and the rightmost one is the left
    /// side of its interval, that interval goes on with the rightmost segment
    /// that leaves downwards.
    pub open spec fn continue_right(stage: Stage, p: Point, tops: Seq<Segment>, bottoms: Seq<Segment>) -> Stage {
        let state = stage.state;
        if stage.error.is_some() || tops.len() - stage.top_begin <= 0 {
            stage
        } else if !state.lines.contains_key(tops.last()) {
            Stage { error: Some(SweepError::MissingInterval), ..stage }
        } else if tops.last() != state.intervals[state.lines[tops.last()]].left_segment {
            stage
        } else if stage.bottom_begin >= stage.bottom_end {
            Stage { error: Some(SweepError::UnpairedSegment), ..stage }
        } else {
            let out = state.normal(p, tops.last(), bottoms[stage.bottom_end - 1]);
            Stage {
                state: out.state,
                error: out.error,
                bottom_end: stage.bottom_end - 1,
                ..stage
            }
        }
    }

    /// The segments number `from` up to `to` of `bottoms` open intervals two
    /// by two, from the left.
    pub open spec fn open_pairs(self, p: Point, bottoms: Seq<Segment>, from: int, to: int) -> Outcome
        decreases to - from,
    {
        if from >= to {
            Outcome::ok(self)
        } else if from + 1 >= to {
            Outcome::fail(self, SweepError::UnpairedSegment)
        } else {
            self.start(p, bottoms[from], bottoms[from + 1]).open_pairs(p, bottoms, from + 2, to)
        }
    }

    /// An event at a point `p` where the segments `edges` meet, more or fewer
    /// than two. First the intervals end whose two sides end in `p`. Of the
    /// other segments, those from above and those that leave downwards are
    /// each sorted from left to right. Then the interval on the left of the
    /// point, and the one on its right, go on downwards, and the segments
    /// that are left open new intervals two by two.
    ///
    /// The event stops with an error, with the state as far as it has come,
    /// where an active segment is not a side of its interval, where a segment
    /// from above that is looked up is not active, where a normal step
    /// cannot be made, or where a segment that leaves downwards has no
    /// partner.
    pub open spec fn intersection(self, p: Point, edges: Seq<Segment>) -> Outcome {
        let sorted_out = self.sort_out(p, edges);
        let tops = spec_sort_segments(sorted_out.tops, false);
        let bottoms = spec_sort_segments(sorted_out.bottoms, true);
        let left = sorted_out.state.continue_left(p, tops, bottoms);
        let right = Self::continue_right(left, p, tops, bottoms);
        if sorted_out.error.is_some() {
            Outcome { state: sorted_out.state, error: sorted_out.error }
        } else if right.error.is_some() {
            Outcome { state: right.state, error: right.error }
        } else {
            right.state.open_pairs(p, bottoms, right.bottom_begin, right.bottom_end)
        }
    }

    /// The event at `p`, by its kind.
    pub open spec fn step(self, p: Point, kind: PointTypeView) -> Outcome {
        match kind {
            PointTypeView::Intersection(edges) => self.intersection(p, edges),
            PointTypeView::Split(left, right) => Outcome::ok(self.split(p, left, right)),
            PointTypeView::Merge(left, right) => self.merge(p, left, right),
            PointTypeView::Normal(top, bottom) => self.normal(p, top, bottom),
        }
    }

    /// The events from number `k` on, in the order of the points, up to the
    /// first error.
    pub open spec fn sweep_from(self, point_to_edges: PointToEdges, k: int) -> Outcome
        decreases point_to_edges.points.len() - k,
    {
        if k < 0 || k >= point_to_edges.points.len() {
            Outcome::ok(self)
        } else {
            let out = self.step(
                point_to_edges.points[k],
                spec_point_type(point_to_edges.points[k], point_to_edges.infos[k]@),
            );
            if out.error.is_some() {
                out
            } else {
                out.state.sweep_from(point_to_edges, k + 1)
            }
        }
    }

    /// The state before the first event.
    pub open spec fn initial() -> SweepState {
        SweepState { lines: Map::empty(), intervals: Seq::empty(), polygons: Seq::empty() }
    }

    /// The whole sweep over the endpoints of a set of edges.
    pub open spec fn sweep(point_to_edges: PointToEdges) -> Outcome {
        Self::initial().sweep_from(point_to_edges, 0)
    }
}

/// Entering a segment in a table of keys enters it in the table that the
/// keys stand for.
proof fn lemma_lines_insert(table: Map<u128, usize>, segment: Segment, interval: usize)
    ensures
        lines_of(table.insert(segment.spec_key(), interval)) == lines_of(table).insert(
            segment,
            interval as int,
        ),
{
    assert forall|t: Segment| t.spec_key() == segment.spec_key() <==> t == segment by {
        t.lemma_key_injective(segment);
    }
    assert(lines_of(table.insert(segment.spec_key(), interval)) =~= lines_of(table).insert(
        segment,
        interval as int,
    ));
}

/// Taking a segment out of a table of keys takes it out of the table that the
/// keys stand for.
proof fn lemma_lines_remove(table: Map<u128, usize>, segment: Segment)
    ensures
        lines_of(table.remove(segment.spec_key())) == lines_of(table).remove(segment),
{
    assert forall|t: Segment| t.spec_key() == segment.spec_key() <==> t == segment by {
        t.lemma_key_injective(segment);
    }
    assert(lines_of(table.remove(segment.spec_key())) =~= lines_of(table).remove(segment));
}

/// Closes the polygons number `from` up to `to` of `list` at `p` and adds them
/// to `out`.
fn close_polygons(
    out: &mut Vec<MonotonePolygon>,
    list: &Vec<MonotonePolygon>,
    from: usize,
    to: usize,
    p: Point,
)
    requires
        from <= to <= list.len(),
    ensures
        views(final(out)@) == views(old(out)@) + close_all(
            views(list@).subrange(from as int, to as int),
            p,
        ),
        all_finished(old(out)@) ==> all_finished(final(out)@),
{
    let mut k: usize = from;
    assert(views(out@) =~= views(old(out)@) + close_all(
        views(list@).subrange(from as int, k as int),
        p,
    ));
    while k < to
        invariant
            from <= k <= to <= list.len(),
            views(out@) == views(old(out)@) + close_all(
                views(list@).subrange(from as int, k as int),
                p,
            ),
            all_finished(old(out)@) ==> all_finished(out@),
        decreases to - k,
    {
        let ghost before = out@;
        out.push(list[k].closed_at(p));
        k += 1;
        assert(views(out@) =~= views(before).push(list@[k - 1]@.with_bottom(p)));
        assert(views(out@) =~= views(old(out)@) + close_all(
            views(list@).subrange(from as int, k as int),
            p,
        ));
    }
}

/// The sweep: the table of active segments, the intervals, the edges with
/// their endpoints, and the finished polygons.
pub struct MonotonePolygonBuilder {
    pub segment_to_line: HashMap<u128, usize>,
    pub intervals: Vec<Interval>,
    pub edges: Vec<Segment>,
    pub point_to_edges: PointToEdges,
    pub monotone_polygons: Vec<MonotonePolygon>,
}

impl View for MonotonePolygonBuilder {
    type V = SweepState;

    open spec fn view(&self) -> SweepState {
        SweepState {
            lines: lines_of(self.segment_to_line@),
            intervals: interval_views(self.intervals@),
            polygons: views(self.monotone_polygons@),
        }
    }
}

/// The index of an interval as a mathematical integer.
pub open spec fn as_int(i: Option<usize>) -> Option<int> {
    match i {
        Some(i) => Some(i as int),
        None => None,
    }
}

/// `Ok` for no error, `Err` for an error.
pub open spec fn as_result(error: Option<SweepError>) -> Result<(), SweepError> {
    match error {
        Some(e) => Err(e),
        None => Ok(()),
    }
}

impl MonotonePolygonBuilder {
    /// Every entry of the table leads to an interval that exists.
    pub open spec fn wf(&self) -> bool {
        &&& forall|k: u128| #[trigger]
            self.segment_to_line@.contains_key(k) ==> self.segment_to_line@[k]
                < self.intervals.len()
        &&& all_finished(self.monotone_polygons@)
    }

    /// The edges and the lists of their endpoints are those of `other`.
    pub open spec fn same_input(&self, other: Self) -> bool {
        self.edges == other.edges && self.point_to_edges == other.point_to_edges
    }

    /// The sweep over no edges.
    pub fn new() -> (r: Self)
        ensures
            r.wf(),
            r@ == SweepState::initial(),
            r.edges@ == Seq::<Segment>::empty(),
            r.point_to_edges.describes(r.edges@),
    {
        let edges: Vec<Segment> = Vec::new();
        let point_to_edges = get_points_edges(edges.as_slice());
        let r = MonotonePolygonBuilder {
            segment_to_line: HashMap::new(),
            intervals: Vec::new(),
            edges,
            point_to_edges,
            monotone_polygons: Vec::new(),
        };
        assert(r@.lines =~= Map::<Segment, int>::empty());
        assert(r@.intervals =~= Seq::<IntervalView>::empty());
        assert(r@.polygons =~= Seq::<MonotonePolygonView>::empty());
        r
    }

    /// The sweep over `edges`, before its first event.
    pub fn new_with_edges(edges: Vec<Segment>) -> (r: Self)
        requires
            forall|i: int| 0 <= i < edges.len() ==> (#[trigger] edges[i]).wf(),
            ensures
            r.wf(),
            r@ == SweepState::initial(),
            r.edges@ == edges@,
            r.point_to_edges.describes(edges@),
    {
        let point_to_edges = get_points_edges(edges.as_slice());
        let r = MonotonePolygonBuilder {
            segment_to_line: HashMap::new(),
            intervals: Vec::new(),
            edges,
            point_to_edges,
            monotone_polygons: Vec::new(),
        };
        assert(r@.lines =~= Map::<Segment, int>::empty());
        assert(r@.intervals =~= Seq::<IntervalView>::empty());
        assert(r@.polygons =~= Seq::<MonotonePolygonView>::empty());
        r
    }

    /// The first two edges of the list of `p` are there.
    pub open spec fn has_two_edges(&self, p: Point) -> bool {
        &&& self.point_to_edges.describes(self.edges@)
        &&& self.point_to_edges.points@.contains(p)
        &&& self.point_to_edges.spec_infos(p).len() >= 2
    }

    /// The first two edges of the list of `p`.
    pub open spec fn first_two_edges(&self, p: Point) -> (Segment, Segment) {
        (
            self.edges[self.point_to_edges.spec_infos(p)[0].edge_index as int],
            self.edges[self.point_to_edges.spec_infos(p)[1].edge_index as int],
        )
    }

    /// The first two edges of the list of `p`.
    fn two_edges(&self, p: &Point) -> (r: (Segment, Segment))
        requires
            self.has_two_edges(*p),
        ensures
            r == self.first_two_edges(*p),
    {
        let g = self.point_to_edges.find(*p).unwrap();
        let point_info = &self.point_to_edges.infos[g];
        assert(crate::point_edges::incident_list(
            self.edges@,
            self.point_to_edges.points[g as int],
            point_info@,
        ));
        let fst_idx = point_info[0].edge_index;
        let snd_idx = point_info[1].edge_index;
        (self.edges[fst_idx], self.edges[snd_idx])
    }

    /// Of the first two edges of the list of `p`, which leave `p` downwards,
    /// the left one and the right one.
    pub fn get_left_right_edges_top(&self, p: &Point) -> (r: (Segment, Segment))
        requires
            self.has_two_edges(*p),
        ensures
            r == crate::point_edges::spec_left_right_edges_top(
                self.first_two_edges(*p).0,
                self.first_two_edges(*p).1,
            ),
    {
        let (first, second) = self.two_edges(p);
        get_left_right_edges_top(&first, &second)
    }

    /// Of the first two edges of the list of `p`, which arrive at `p` from
    /// above, the left one and the right one.
    pub fn get_left_right_edges_bottom(&self, p: &Point) -> (r: (Segment, Segment))
        requires
            self.has_two_edges(*p),
        ensures
            r == crate::point_edges::spec_left_right_edges_bottom(
                self.first_two_edges(*p).0,
                self.first_two_edges(*p).1,
            ),
    {
        let (first, second) = self.two_edges(p);
        get_left_right_edges_bottom(&first, &second)
    }

    /// The interval that `segment` bounds, if it is active.
    pub fn line(&self, segment: &Segment) -> (r: Option<usize>)
        requires
            self.wf(),
        ensures
            as_int(r) == self@.line(*segment),
            r matches Some(i) ==> i < self.intervals.len(),
    {
        let k = segment.key();
        match self.segment_to_line.get(&k) {
            Some(i) => Some(*i),
            None => None,
        }
    }

    /// Enters `segment` in the table as a side of the interval number
    /// `interval`.
    fn set_line(&mut self, segment: &Segment, interval: usize)
        requires
            old(self).wf(),
            interval < old(self).intervals.len(),
        ensures
            final(self).wf(),
            final(self)@.lines == old(self)@.lines.insert(*segment, interval as int),
            final(self).intervals == old(self).intervals,
            final(self).monotone_polygons == old(self).monotone_polygons,
            final(self).same_input(*old(self)),
    {
        proof {
            lemma_lines_insert(self.segment_to_line@, *segment, interval);
        }
        self.segment_to_line.insert(segment.key(), interval);
    }

    /// Takes `segment` out of the table.
    fn remove_line(&mut self, segment: &Segment)
        requires
            old(self).wf(),
        ensures
            final(self).wf(),
            final(self)@.lines == old(self)@.lines.remove(*segment),
            final(self).intervals == old(self).intervals,
            final(self).monotone_polygons == old(self).monotone_polygons,
            final(self).same_input(*old(self)),
    {
        proof {
            lemma_lines_remove(self.segment_to_line@, *segment);
        }
        let k = segment.key();
        self.segment_to_line.remove(&k);
    }

    /// Ends the interval number `interval` at `p`: its polygons are closed at
    /// `p` and handed out, and its two sides stop being active.
    pub fn process_end_point(
        &mut self,
        p: Point,
        edge_left: Segment,
        edge_right: Segment,
        interval: usize,
    )
        requires
            old(self).wf(),
            interval < old(self).intervals.len(),
        ensures
            final(self).wf(),
            final(self)@ == old(self)@.end(p, edge_left, edge_right, interval as int),
            final(self).same_input(*old(self)),
    {
        let n = self.intervals[interval].polygons_list.len();
        close_polygons(
            &mut self.monotone_polygons,
            &self.intervals[interval].polygons_list,
            0,
            n,
            p,
        );
        assert(views(self.intervals@[interval as int].polygons_list@).subrange(0, n as int)
            =~= self@.intervals[interval as int].polygons);
        self.remove_line(&edge_left);
        self.remove_line(&edge_right);
    }

    /// Opens an interval between the two segments that leave `p` downwards.
    pub fn process_start_point(&mut self, p: Point, edge_left: Segment, edge_right: Segment)
        requires
            old(self).wf(),
        ensures
            final(self).wf(),
            final(self)@ == old(self)@.start(p, edge_left, edge_right),
            final(self).same_input(*old(self)),
    {
        let interval = Interval::with_polygon(p, edge_left, edge_right, MonotonePolygon::new_top(p));
        let n = self.intervals.len();
        self.intervals.push(interval);
        assert(interval_views(self.intervals@) =~= interval_views(old(self).intervals@).push(
            interval@,
        ));
        self.set_line(&edge_left, n);
        self.set_line(&edge_right, n);
    }

    /// Handles a merge event: see `SweepState::merge`. On an error the sweep
    /// is left as it was.
    pub fn process_merge_point(&mut self, p: Point, edge_left: Segment, edge_right: Segment) -> (r:
        Result<(), SweepError>)
        requires
            old(self).wf(),
        ensures
            final(self).wf(),
            final(self)@ == old(self)@.merge(p, edge_left, edge_right).state,
            r == as_result(old(self)@.merge(p, edge_left, edge_right).error),
            final(self).same_input(*old(self)),
    {
        let li = match self.line(&edge_left) {
            Some(i) => i,
            None => {
                return Err(SweepError::MissingInterval);
            },
        };
        let ri = match self.line(&edge_right) {
            Some(i) => i,
            None => {
                return Err(SweepError::MissingInterval);
            },
        };
        if li == ri {
            self.process_end_point(p, edge_left, edge_right, li);
            return Ok(());
        }
        let outer = self.intervals[ri].right_segment;
        if outer == edge_right {
            return Err(SweepError::SegmentNotInInterval);
        }
        if outer == edge_left || self.line(&outer).is_none() {
            return Err(SweepError::BrokenInterval);
        }
        let ghost left = self@.intervals[li as int];
        let ghost right = self@.intervals[ri as int];
        self.remove_line(&edge_right);
        self.remove_line(&edge_left);
        self.set_line(&outer, li);
        let mut moved: Vec<MonotonePolygon> = Vec::new();
        std::mem::swap(&mut moved, &mut self.intervals[ri].polygons_list);
        assert(views(self.intervals@[ri as int].polygons_list@) =~= Seq::empty());
        if moved.len() > 0 {
            moved[0].left.push(p);
        }
        assert(views(moved@) =~= push_left_first(right.polygons, p));
        let n = self.intervals[li].polygons_list.len();
        if n > 0 {
            self.intervals[li].polygons_list[n - 1].right.push(p);
        }
        assert(views(self.intervals@[li as int].polygons_list@) =~= push_right_last(
            left.polygons,
            p,
        ));
        self.intervals[li].polygons_list.append(&mut moved);
        assert(views(self.intervals@[li as int].polygons_list@) =~= push_right_last(
            left.polygons,
            p,
        ) + push_left_first(right.polygons, p));
        self.intervals[li].right_segment = outer;
        self.intervals[li].last_seen = p;
        assert(self@.intervals =~= old(self)@.merge(p, edge_left, edge_right).state.intervals);
        Ok(())
    }

    /// Handles a normal event: see `SweepState::normal`. On an error the sweep
    /// is left as it was.
    pub fn process_normal_point(&mut self, p: Point, edge_top: Segment, edge_bottom: Segment) -> (r:
        Result<(), SweepError>)
        requires
            old(self).wf(),
        ensures
            final(self).wf(),
            final(self)@ == old(self)@.normal(p, edge_top, edge_bottom).state,
            r == as_result(old(self)@.normal(p, edge_top, edge_bottom).error),
            final(self).same_input(*old(self)),
    {
        let i = match self.line(&edge_top) {
            Some(i) => i,
            None => {
                return Err(SweepError::MissingInterval);
            },
        };
        let left = self.intervals[i].left_segment;
        let right = self.intervals[i].right_segment;
        if left != edge_top && right != edge_top {
            return Err(SweepError::SegmentNotInInterval);
        }
        let on_right = edge_top == right;
        let (new_left, new_right) = if left == edge_top {
            (edge_bottom, right)
        } else {
            (left, edge_bottom)
        };
        let left_stays = new_left != edge_top && (new_left == edge_bottom || self.line(
            &new_left,
        ).is_some());
        let right_stays = new_right != edge_top && (new_right == edge_bottom || self.line(
            &new_right,
        ).is_some());
        if !left_stays || !right_stays {
            return Err(SweepError::BrokenInterval);
        }
        let ghost interval = self@.intervals[i as int];
        let n = self.intervals[i].polygons_list.len();
        if n > 1 {
            if on_right {
                close_polygons(
                    &mut self.monotone_polygons,
                    &self.intervals[i].polygons_list,
                    1,
                    n,
                    p,
                );
                assert(interval.polygons.subrange(1, n as int) =~= interval.polygons.skip(1));
                self.intervals[i].polygons_list.truncate(1);
                assert(views(self.intervals@[i as int].polygons_list@) =~= seq![
                    interval.polygons[0],
                ]);
            } else {
                close_polygons(
                    &mut self.monotone_polygons,
                    &self.intervals[i].polygons_list,
                    0,
                    n - 1,
                    p,
                );
                assert(interval.polygons.subrange(0, n - 1) =~= interval.polygons.drop_last());
                let last = self.intervals[i].polygons_list.pop().unwrap();
                self.intervals[i].polygons_list.clear();
                self.intervals[i].polygons_list.push(last);
                assert(views(self.intervals@[i as int].polygons_list@) =~= seq![
                    interval.polygons.last(),
                ]);
            }
        } else {
            assert(views(self.monotone_polygons@) =~= old(self)@.polygons + Seq::empty());
        }
        let ghost kept = views(self.intervals@[i as int].polygons_list@);
        if self.intervals[i].polygons_list.len() > 0 {
            if on_right {
                self.intervals[i].polygons_list[0].right.push(p);
                assert(views(self.intervals@[i as int].polygons_list@) =~= seq![
                    kept[0].push_right(p),
                ]);
            } else {
                self.intervals[i].polygons_list[0].left.push(p);
                assert(views(self.intervals@[i as int].polygons_list@) =~= seq![
                    kept[0].push_left(p),
                ]);
            }
        }
        self.set_line(&edge_bottom, i);
        self.intervals[i].last_seen = p;
        self.intervals[i].left_segment = new_left;
        self.intervals[i].right_segment = new_right;
        self.remove_line(&edge_top);
        assert(self@.intervals =~= old(self)@.normal(p, edge_top, edge_bottom).state.intervals);
        Ok(())
    }

    /// The first interval that holds `p`: see `SweepState::holds_point`.
    pub fn find_interval_with_point(&self, p: Point) -> (r: Option<usize>)
        requires
            self.wf(),
        ensures
            as_int(r) == self@.interval_with_point(p),
            r matches Some(i) ==> i < self.intervals.len(),
    {
        let mut i: usize = 0;
        while i < self.intervals.len()
            invariant
                i <= self.intervals.len(),
                self.wf(),
                self@.interval_with_point_from(p, i as int) == self@.interval_with_point(p),
            decreases self.intervals.len() - i,
        {
            let left = self.intervals[i].left_segment;
            let entered = match self.line(&left) {
                Some(j) => j == i,
                None => false,
            };
            if entered && left.passes_left_of(p) && self.intervals[i].right_segment.passes_right_of(
                p,
            ) {
                return Some(i);
            }
            i += 1;
        }
        None
    }

    /// Handles a split event: see `SweepState::split`.
    pub fn process_split_point(&mut self, p: Point, edge_left: Segment, edge_right: Segment)
        requires
            old(self).wf(),
        ensures
            final(self).wf(),
            final(self)@ == old(self)@.split(p, edge_left, edge_right),
            final(self).same_input(*old(self)),
    {
        match self.find_interval_with_point(p) {
            None => {
                self.process_start_point(p, edge_left, edge_right);
            },
            Some(i) => {
                let ghost interval = self@.intervals[i as int];
                let outer = self.intervals[i].right_segment;
                let n = self.intervals.len();
                let count = self.intervals[i].polygons_list.len();
                let mut moved: Vec<MonotonePolygon> = Vec::new();
                if count == 1 {
                    let first = &self.intervals[i].polygons_list[0];
                    let top = if first.right.len() == 0 {
                        first.top
                    } else {
                        first.right[first.right.len() - 1]
                    };
                    let mut new_polygon = MonotonePolygon::new_top(top);
                    new_polygon.left.push(p);
                    moved.push(new_polygon);
                    self.intervals[i].polygons_list[0].right.push(p);
                    assert(views(self.monotone_polygons@) =~= old(self)@.polygons + Seq::empty());
                } else if count >= 2 {
                    close_polygons(
                        &mut self.monotone_polygons,
                        &self.intervals[i].polygons_list,
                        1,
                        count - 1,
                        p,
                    );
                    if count == 2 {
                        assert(close_all(interval.polygons.subrange(1, 1), p) =~= Seq::empty());
                    }
                    let mut last = self.intervals[i].polygons_list.pop().unwrap();
                    last.left.push(p);
                    moved.push(last);
                    self.intervals[i].polygons_list.truncate(1);
                    self.intervals[i].polygons_list[0].right.push(p);
                } else {
                    assert(views(self.monotone_polygons@) =~= old(self)@.polygons + Seq::empty());
                }
                assert(views(moved@) =~= old(self)@.split(p, edge_left, edge_right).intervals.last().polygons);
                assert(views(self.intervals@[i as int].polygons_list@) =~= old(self)@.split(
                    p,
                    edge_left,
                    edge_right,
                ).intervals[i as int].polygons);
                self.intervals[i].right_segment = edge_left;
                self.intervals[i].last_seen = p;
                self.intervals.push(
                    Interval {
                        last_seen: p,
                        left_segment: edge_right,
                        right_segment: outer,
                        polygons_list: moved,
                    },
                );
                self.set_line(&edge_left, i);
                self.set_line(&edge_right, n);
                self.set_line(&outer, n);
                assert(self@.intervals =~= old(self)@.split(p, edge_left, edge_right).intervals);
            },
        }
    }

    /// Handles a point where more or fewer than two edges meet: see
    /// `SweepState::intersection`.
    pub fn process_intersection_point(&mut self, p: Point, edges: Vec<Segment>) -> (r: Result<
        (),
        SweepError,
    >)
        requires
            old(self).wf(),
        ensures
            final(self).wf(),
            final(self)@ == old(self)@.intersection(p, edges@).state,
            r == as_result(old(self)@.intersection(p, edges@).error),
            final(self).same_input(*old(self)),
    {
        let mut processed_segments: BTreeSet<u128> = BTreeSet::new();
        let ghost mut processed: Seq<Segment> = Seq::empty();
        let mut tops: Vec<Segment> = Vec::new();
        let mut bottoms: Vec<Segment> = Vec::new();
        let mut error: Option<SweepError> = None;
        let mut k: usize = 0;
        assert(edges@.take(0) =~= Seq::empty());
        while k < edges.len()
            invariant
                k <= edges.len(),
                self.wf(),
                self.same_input(*old(self)),
                old(self)@.sort_out(p, edges@.take(k as int)) == (SortedOut {
                    state: self@,
                    error,
                    processed,
                    tops: tops@,
                    bottoms: bottoms@,
                }),
                forall|s: Segment|
                    processed_segments@.contains(#[trigger] s.spec_key()) <==> processed.contains(
                        s,
                    ),
            decreases edges.len() - k,
        {
            let edge = edges[k];
            proof {
                assert(edges@.take(k + 1).drop_last() == edges@.take(k as int));
                assert(edges@.take(k + 1).last() == edge);
            }
            k += 1;
            let edge_key = edge.key();
            if error.is_none() && !processed_segments.contains(&edge_key) {
                let mut done = false;
                match self.line(&edge) {
                    Some(i) => {
                        let left = self.intervals[i].left_segment;
                        let right = self.intervals[i].right_segment;
                        if left != edge && right != edge {
                            error = Some(SweepError::SegmentNotInInterval);
                            done = true;
                        } else {
                            let opposite = self.intervals[i].opposite_segment(&edge);
                            if edge.bottom == p && opposite.bottom == p {
                                self.process_end_point(p, edge, opposite, i);
                                let ghost before = processed;
                                processed_segments.insert(opposite.key());
                                processed_segments.insert(edge_key);
                                proof {
                                    processed = before.push(opposite).push(edge);
                                    assert forall|s: Segment|
                                        processed_segments@.contains(
                                            #[trigger] s.spec_key(),
                                        ) <==> processed.contains(s) by {
                                        s.lemma_key_injective(opposite);
                                        s.lemma_key_injective(edge);
                                        if before.contains(s) {
                                            let j = choose|j: int|
                                                0 <= j < before.len() && before[j] == s;
                                            assert(processed[j] == s);
                                        }
                                        assert(processed[before.len() as int] == opposite);
                                        assert(processed[before.len() as int + 1] == edge);
                                    }
                                }
                                done = true;
                            }
                        }
                    },
                    None => {},
                }
                if !done {
                    if edge.bottom == p {
                        tops.push(edge);
                    } else {
                        bottoms.push(edge);
                    }
                }
            }
        }
        assert(edges@.take(k as int) == edges@);
        if let Some(e) = error {
            return Err(e);
        }
        let tops = sort_segments(&tops, false);
        let bottoms = sort_segments(&bottoms, true);
        let mut top_begin: usize = 0;
        let mut bottom_begin: usize = 0;
        let mut bottom_end: usize = bottoms.len();
        if tops.len() > 0 {
            let first_top = tops[0];
            let i = match self.line(&first_top) {
                Some(i) => i,
                None => {
                    return Err(SweepError::MissingInterval);
                },
            };
            if first_top == self.intervals[i].right_segment {
                if bottoms.len() == 0 {
                    return Err(SweepError::UnpairedSegment);
                }
                top_begin = 1;
                bottom_begin = 1;
                match self.process_normal_point(p, first_top, bottoms[0]) {
                    Err(e) => {
                        return Err(e);
                    },
                    Ok(()) => {},
                }
            }
            let last_top = tops[tops.len() - 1];
            if tops.len() - top_begin > 0 {
                let i = match self.line(&last_top) {
                    Some(i) => i,
                    None => {
                        return Err(SweepError::MissingInterval);
                    },
                };
                if last_top == self.intervals[i].left_segment {
                    if bottom_begin >= bottom_end {
                        return Err(SweepError::UnpairedSegment);
                    }
                    bottom_end = bottom_end - 1;
                    match self.process_normal_point(p, last_top, bottoms[bottom_end]) {
                        Err(e) => {
                            return Err(e);
                        },
                        Ok(()) => {},
                    }
                }
            }
        }
        let ghost goal = old(self)@.intersection(p, edges@);
        while bottom_begin < bottom_end
            invariant
                bottom_begin <= bottom_end <= bottoms.len(),
                self.wf(),
                self.same_input(*old(self)),
                self@.open_pairs(p, bottoms@, bottom_begin as int, bottom_end as int) == goal,
                goal == old(self)@.intersection(p, edges@),
            decreases bottom_end - bottom_begin,
        {
            if bottom_begin + 1 >= bottom_end {
                return Err(SweepError::UnpairedSegment);
            }
            self.process_start_point(p, bottoms[bottom_begin], bottoms[bottom_begin + 1]);
            bottom_begin += 2;
        }
        Ok(())
    }

    /// Handles the event at the point number `k` of the endpoints.
    pub fn process_point(&mut self, k: usize) -> (r: Result<(), SweepError>)
        requires
            old(self).wf(),
            old(self).point_to_edges.wf(),
            k < old(self).point_to_edges.points.len(),
        ensures
            final(self).wf(),
            final(self).same_input(*old(self)),
            final(self)@ == old(self)@.step(
                old(self).point_to_edges.points[k as int],
                spec_point_type(
                    old(self).point_to_edges.points[k as int],
                    old(self).point_to_edges.infos[k as int]@,
                ),
            ).state,
            r == as_result(
                old(self)@.step(
                    old(self).point_to_edges.points[k as int],
                    spec_point_type(
                        old(self).point_to_edges.points[k as int],
                        old(self).point_to_edges.infos[k as int]@,
                    ),
                ).error,
            ),
    {
        let p = self.point_to_edges.points[k];
        proof {
            self.point_to_edges.lemma_index_of(k as int);
        }
        match get_point_type(p, &self.point_to_edges) {
            PointType::Intersection(edges) => self.process_intersection_point(p, edges),
            PointType::Split(left, right) => {
                self.process_split_point(p, left, right);
                Ok(())
            },
            PointType::Merge(left, right) => self.process_merge_point(p, left, right),
            PointType::Normal(top, bottom) => self.process_normal_point(p, top, bottom),
        }
    }
}

/// The sweep goes by what the lists of the endpoints hold: over two lists
/// that hold the same it takes the same course.
pub proof fn lemma_sweep_same(a: PointToEdges, b: PointToEdges, state: SweepState, k: int)
    requires
        a.same_as(b),
    ensures
        state.sweep_from(a, k) == state.sweep_from(b, k),
    decreases a.points.len() - k,
{
    if 0 <= k < a.points.len() {
        assert(a.points[k] == b.points[k]);
        assert(a.infos[k]@ == b.infos[k]@);
        let out = state.step(a.points[k], spec_point_type(a.points[k], a.infos[k]@));
        if out.error.is_none() {
            lemma_sweep_same(a, b, out.state, k + 1);
        }
    }
}

/// Cuts the region that `edges` bound into monotone polygons, by a sweep over
/// the endpoints from the highest down. The result is that of
/// `SweepState::sweep` over the lists of the endpoints, which the edges
/// determine: its finished polygons, or the error at which it stopped.
pub fn sweeping_line_triangulation(edges: Vec<Segment>) -> (r: Result<
    Vec<MonotonePolygon>,
    SweepError,
>)
    requires
        forall|i: int| 0 <= i < edges.len() ==> (#[trigger] edges[i]).wf(),
    ensures
        exists|point_to_edges: PointToEdges| #[trigger] point_to_edges.describes(edges@),
        forall|point_to_edges: PointToEdges| #[trigger]
            point_to_edges.describes(edges@) ==> sweep_result(r) == SweepState::sweep(
                point_to_edges,
            ).result(),
        r matches Ok(polygons) ==> all_finished(polygons@),
{
    let ghost given = edges@;
    let builder = MonotonePolygonBuilder::new_with_edges(edges);
    let ghost used = builder.point_to_edges;
    let r = sweep_builder(builder);
    proof {
        assert(used.describes(given));
        assert forall|point_to_edges: PointToEdges| #[trigger]
            point_to_edges.describes(given) implies sweep_result(r) == SweepState::sweep(
            point_to_edges,
        ).result() by {
            lemma_describes_unique(used, point_to_edges, given);
            lemma_sweep_same(used, point_to_edges, SweepState::initial(), 0);
        }
    }
    r
}

/// The finished polygons of a sweep, or its error.
pub open spec fn sweep_result(r: Result<Vec<MonotonePolygon>, SweepError>) -> Result<
    Seq<MonotonePolygonView>,
    SweepError,
> {
    match r {
        Ok(polygons) => Ok(views(polygons@)),
        Err(e) => Err(e),
    }
}

impl Outcome {
    /// The finished polygons, or the error.
    pub open spec fn result(self) -> Result<Seq<MonotonePolygonView>, SweepError> {
        match self.error {
            Some(e) => Err(e),
            None => Ok(self.state.polygons),
        }
    }
}

/// Runs a sweep that has not begun over all its points.
pub fn sweep_builder(start: MonotonePolygonBuilder) -> (r: Result<
    Vec<MonotonePolygon>,
    SweepError,
>)
    requires
        start.wf(),
        start.point_to_edges.wf(),
        start@ == SweepState::initial(),
    ensures
        sweep_result(r) == SweepState::sweep(start.point_to_edges).result(),
        r matches Ok(polygons) ==> all_finished(polygons@),
{
    let ghost point_to_edges = start.point_to_edges;
    let mut builder = start;
    let n = builder.point_to_edges.points.len();
    let mut k: usize = 0;
    while k < n
        invariant
            k <= n,
            n == point_to_edges.points.len(),
            builder.wf(),
            builder.point_to_edges == point_to_edges,
            start.point_to_edges == point_to_edges,
            point_to_edges.wf(),
            builder@.sweep_from(point_to_edges, k as int) == SweepState::sweep(point_to_edges),
        decreases n - k,
    {
        let ghost before = builder@;
        let ghost out = before.step(
            point_to_edges.points[k as int],
            spec_point_type(point_to_edges.points[k as int], point_to_edges.infos[k as int]@),
        );
        assert(before.sweep_from(point_to_edges, k as int) == if out.error.is_some() {
            out
        } else {
            out.state.sweep_from(point_to_edges, k + 1)
        });
        match builder.process_point(k) {
            Err(e) => {
                return Err(e);
            },
            Ok(()) => {},
        }
        k += 1;
    }
    Ok(builder.monotone_polygons)
}

} // verus!
