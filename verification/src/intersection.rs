//! Intersections of segments: whether two segments meet, where they meet, and
//! which segments of a list cross each other.
pub use crate::point::{orientation, Orientation};
use crate::point::{
    floor_div, in_box, on_box, spec_floor_div, spec_orientation, turn, turn_value, Point, Segment,
};
use crate::point_edges::{
    get_points_edges, incident_list, lemma_incident_distinct, PointEdgeInfo, PointToEdges,
};
use std::cmp::Ordering;
use vstd::prelude::*;

verus! {

/// An endpoint of the segment number `index`: its upper one where `is_top`
/// holds. Events are ordered by their point, at one point those of upper ends
/// first, and among those by the index.
#[derive(Debug, Clone, Copy, PartialEq, Eq, Structural)]
pub struct Event {
    pub p: Point,
    pub index: usize,
    pub is_top: bool,
}

/// Two indices, the lower one first.
#[derive(Debug, Clone, Copy, PartialEq, Eq, Structural, Hash, PartialOrd, Ord)]
pub struct OrderedPair(usize, usize);

/// How two segments meet.
#[derive(Debug, PartialEq, Eq)]
pub enum Intersection {
    /// The segments are parallel and lie on two lines.
    NoIntersection,
    /// The lines through the segments cross: the grid point of the first
    /// segment next to the crossing.
    PointIntersection(Point),
    /// The segments lie on one line and share no point.
    CollinearNoOverlap,
    /// The segments lie on one line: the ends of the stretch that they share,
    /// once where the stretch is a single point.
    CollinearWithOverlap(Vec<Point>),
}

/// What an `Intersection` holds, as mathematical values.
pub enum IntersectionView {
    NoIntersection,
    PointIntersection(Point),
    CollinearNoOverlap,
    CollinearWithOverlap(Seq<Point>),
}

impl View for Intersection {
    type V = IntersectionView;

    open spec fn view(&self) -> IntersectionView {
        match *self {
            Intersection::NoIntersection => IntersectionView::NoIntersection,
            Intersection::PointIntersection(p) => IntersectionView::PointIntersection(p),
            Intersection::CollinearNoOverlap => IntersectionView::CollinearNoOverlap,
            Intersection::CollinearWithOverlap(v) => IntersectionView::CollinearWithOverlap(v@),
        }
    }
}

impl Event {
    /// The event of an end of the segment number `index`.
    pub fn new(p: Point, index: usize, is_top: bool) -> (e: Self)
        ensures
            e == (Event { p, index, is_top }),
    {
        Event { p, index, is_top }
    }

    /// `self` comes strictly before `other`.
    pub open spec fn spec_lt(self, other: Event) -> bool {
        if self.p != other.p {
            self.p.spec_lt(other.p)
        } else if self.is_top != other.is_top {
            self.is_top
        } else {
            self.index < other.index
        }
    }
}

impl PartialOrd for Event {
    fn partial_cmp(&self, other: &Self) -> (r: Option<Ordering>) {
        if self.p != other.p {
            if self.p < other.p {
                Some(Ordering::Less)
            } else {
                Some(Ordering::Greater)
            }
        } else if self.is_top != other.is_top {
            if self.is_top {
                Some(Ordering::Less)
            } else {
                Some(Ordering::Greater)
            }
        } else if self.index < other.index {
            Some(Ordering::Less)
        } else if self.index > other.index {
            Some(Ordering::Greater)
        } else {
            Some(Ordering::Equal)
        }
    }
}

impl vstd::std_specs::cmp::PartialOrdSpecImpl for Event {
    open spec fn obeys_partial_cmp_spec() -> bool {
        true
    }

    open spec fn partial_cmp_spec(&self, other: &Self) -> Option<Ordering> {
        if self.spec_lt(*other) {
            Some(Ordering::Less)
        } else if other.spec_lt(*self) {
            Some(Ordering::Greater)
        } else {
            Some(Ordering::Equal)
        }
    }
}

impl OrderedPair {
    /// The lower index.
    pub closed spec fn spec_first(self) -> usize {
        self.0
    }

    /// The higher index.
    pub closed spec fn spec_second(self) -> usize {
        self.1
    }

    /// The pair of the two indices, whichever is given first.
    pub closed spec fn spec_new(i1: usize, i2: usize) -> OrderedPair {
        if i1 <= i2 {
            OrderedPair(i1, i2)
        } else {
            OrderedPair(i2, i1)
        }
    }

    /// The pair of the two indices, whichever is given first.
    pub fn new(i1: usize, i2: usize) -> (r: Self)
        ensures
            r == OrderedPair::spec_new(i1, i2),
    {
        if i1 <= i2 {
            OrderedPair(i1, i2)
        } else {
            OrderedPair(i2, i1)
        }
    }

    /// The lower index.
    pub fn first(&self) -> (r: usize)
        ensures
            r == self.spec_first(),
    {
        self.0
    }

    /// The higher index.
    pub fn second(&self) -> (r: usize)
        ensures
            r == self.spec_second(),
    {
        self.1
    }

    /// A pair holds the lower of the two indices first and the higher second,
    /// and the order in which they are given does not matter.
    pub proof fn lemma_new(i1: usize, i2: usize)
        ensures
            OrderedPair::spec_new(i1, i2) == OrderedPair::spec_new(i2, i1),
            OrderedPair::spec_new(i1, i2).spec_first() == if i1 <= i2 {
                i1
            } else {
                i2
            },
            OrderedPair::spec_new(i1, i2).spec_second() == if i1 <= i2 {
                i2
            } else {
                i1
            },
    {
    }

    /// A pair that holds its lower index first is the pair of its two indices.
    pub proof fn lemma_pair_of_indices(self)
        requires
            self.spec_first() <= self.spec_second(),
        ensures
            self == OrderedPair::spec_new(self.spec_first(), self.spec_second()),
    {
    }

    /// Two pairs with the same two indices are one pair.
    pub proof fn lemma_same_indices(self, other: OrderedPair)
        ensures
            self == other <==> self.spec_first() == other.spec_first() && self.spec_second()
                == other.spec_second(),
    {
    }

    /// Two pairs of indices are one pair where they hold the same two indices.
    pub proof fn lemma_new_equal(i1: usize, i2: usize, j1: usize, j2: usize)
        ensures
            OrderedPair::spec_new(i1, i2) == OrderedPair::spec_new(j1, j2) <==> (i1 == j1 && i2
                == j2) || (i1 == j2 && i2 == j1),
    {
    }

}

/// Whether `q` lies on the segment from `p` to `r`, given that the three lie
/// on one line: whether `q` lies between `p` and `r` in both coordinates.
pub fn on_segment_if_collinear(p: Point, q: Point, r: Point) -> (b: bool)
    ensures
        b == in_box(p, q, r),
{
    on_box(p, q, r)
}

/// Two segments meet: each has its ends on different sides of the line
/// through the other, or an end of one lies on the other.
pub open spec fn spec_do_intersect(s1: Segment, s2: Segment) -> bool {
    let p1 = s1.bottom;
    let q1 = s1.top;
    let p2 = s2.bottom;
    let q2 = s2.top;
    let o1 = spec_orientation(p1, q1, p2);
    let o2 = spec_orientation(p1, q1, q2);
    let o3 = spec_orientation(p2, q2, p1);
    let o4 = spec_orientation(p2, q2, q1);
    ||| (o1 != o2 && o3 != o4)
    ||| (o1 == Orientation::Collinear && in_box(p1, p2, q1))
    ||| (o2 == Orientation::Collinear && in_box(p1, q2, q1))
    ||| (o3 == Orientation::Collinear && in_box(p2, p1, q2))
    ||| (o4 == Orientation::Collinear && in_box(p2, q1, q2))
}

/// Whether two segments meet.
pub fn do_intersect(s1: &Segment, s2: &Segment) -> (b: bool)
    ensures
        b == spec_do_intersect(*s1, *s2),
{
    let p1 = s1.bottom;
    let q1 = s1.top;
    let p2 = s2.bottom;
    let q2 = s2.top;
    let o1 = orientation(p1, q1, p2);
    let o2 = orientation(p1, q1, q2);
    let o3 = orientation(p2, q2, p1);
    let o4 = orientation(p2, q2, q1);
    if o1 != o2 && o3 != o4 {
        return true;
    }
    if o1 == Orientation::Collinear && on_segment_if_collinear(p1, p2, q1) {
        return true;
    }
    if o2 == Orientation::Collinear && on_segment_if_collinear(p1, q2, q1) {
        return true;
    }
    if o3 == Orientation::Collinear && on_segment_if_collinear(p2, p1, q2) {
        return true;
    }
    if o4 == Orientation::Collinear && on_segment_if_collinear(p2, q1, q2) {
        return true;
    }
    false
}

/// Two segments have an endpoint in common.
pub open spec fn spec_share_endpoint(s1: Segment, s2: Segment) -> bool {
    s1.bottom == s2.bottom || s1.bottom == s2.top || s1.top == s2.bottom || s1.top == s2.top
}

/// Whether two segments have an endpoint in common.
pub fn share_endpoint(s1: &Segment, s2: &Segment) -> (b: bool)
    ensures
        b == spec_share_endpoint(*s1, *s2),
{
    s1.bottom == s2.bottom || s1.bottom == s2.top || s1.top == s2.bottom || s1.top == s2.top
}

/// The cross product of the directions of two segments, each taken from its
/// upper to its lower end: zero where the segments are parallel.
pub open spec fn direction_cross(s1: Segment, s2: Segment) -> int {
    (s1.bottom.x - s1.top.x) * (s2.bottom.y - s2.top.y) - (s1.bottom.y - s1.top.y) * (s2.bottom.x
        - s2.top.x)
}

/// The numerator of the place at which the line through `s2` crosses the line
/// through `s1`, over the denominator `direction_cross(s1, s2)`: the quotient
/// is 0 at the upper end of `s1` and 1 at its lower end.
pub open spec fn crossing_numerator(s1: Segment, s2: Segment) -> int {
    (s2.top.x - s1.top.x) * (s2.bottom.y - s2.top.y) - (s2.top.y - s1.top.y) * (s2.bottom.x
        - s2.top.x)
}

/// The later of two points.
pub open spec fn later(a: Point, b: Point) -> Point {
    if a.spec_lt(b) {
        b
    } else {
        a
    }
}

/// The earlier of two points.
pub open spec fn earlier(a: Point, b: Point) -> Point {
    if b.spec_lt(a) {
        b
    } else {
        a
    }
}

/// The crossing of the lines through two segments that are not parallel, each
/// coordinate rounded down to the grid.
pub open spec fn crossing_point(s1: Segment, s2: Segment) -> (int, int) {
    let det = direction_cross(s1, s2);
    let t = crossing_numerator(s1, s2);
    (
        spec_floor_div(s1.top.x * det + t * (s1.bottom.x - s1.top.x), det),
        spec_floor_div(s1.top.y * det + t * (s1.bottom.y - s1.top.y), det),
    )
}

/// The crossing of the lines through the two segments lies on `s1`.
pub open spec fn crossing_on_first(s1: Segment, s2: Segment) -> bool {
    let det = direction_cross(s1, s2);
    let t = crossing_numerator(s1, s2);
    (det > 0 && 0 <= t <= det) || (det < 0 && det <= t <= 0)
}

/// The crossing lies before the upper end of `s1`.
pub open spec fn crossing_before_first(s1: Segment, s2: Segment) -> bool {
    let det = direction_cross(s1, s2);
    let t = crossing_numerator(s1, s2);
    (det > 0 && t < 0) || (det < 0 && t > 0)
}

/// How two segments meet.
///
/// Parallel segments on two lines do not meet. Segments on one line share the
/// stretch from the later of their lower ends to the earlier of their upper
/// ends, if there is one. For others the lines cross in one point: where it
/// lies on `s1`, the result is that point rounded down to the grid; where it
/// lies beyond an end of `s1`, the result is that end.
pub open spec fn spec_find_intersection(s1: Segment, s2: Segment) -> IntersectionView {
    if direction_cross(s1, s2) == 0 {
        let low = later(s1.bottom, s2.bottom);
        let high = earlier(s1.top, s2.top);
        if turn(s1.bottom, s1.top, s2.bottom) != 0 {
            IntersectionView::NoIntersection
        } else if high.spec_lt(low) {
            IntersectionView::CollinearNoOverlap
        } else if low == high {
            IntersectionView::CollinearWithOverlap(seq![low])
        } else {
            IntersectionView::CollinearWithOverlap(seq![low, high])
        }
    } else if crossing_before_first(s1, s2) {
        IntersectionView::PointIntersection(s1.top)
    } else if !crossing_on_first(s1, s2) {
        IntersectionView::PointIntersection(s1.bottom)
    } else {
        IntersectionView::PointIntersection(
            Point { x: crossing_point(s1, s2).0 as i32, y: crossing_point(s1, s2).1 as i32 },
        )
    }
}

/// A point between `a * d` and `b * d`, divided by `d`, lies between `a` and
/// `b`.
pub proof fn lemma_floor_div_between(n: int, d: int, a: int, b: int)
    requires
        d != 0,
        (d > 0 && a * d <= n <= b * d) || (d < 0 && a * d >= n >= b * d),
    ensures
        a <= spec_floor_div(n, d) <= b,
{
    let (m, e) = if d > 0 {
        (n, d)
    } else {
        (-n, -d)
    };
    assert(a * e <= m <= b * e) by (nonlinear_arith)
        requires
            (d > 0 && a * d <= n <= b * d && m == n && e == d) || (d < 0 && a * d >= n >= b * d
                && m == -n && e == -d),
    ;
    vstd::arithmetic::div_mod::lemma_fundamental_div_mod(m, e);
    let q = m / e;
    let r = m % e;
    assert(a <= q <= b) by (nonlinear_arith)
        requires
            a * e <= m <= b * e,
            m == e * q + r,
            0 <= r < e,
    ;
}

/// A point that divides the stretch from `a` to `b` in the ratio `t : d`
/// with `t / d` between 0 and 1 lies between `a` and `b`.
proof fn lemma_scaled_between(a: int, b: int, t: int, d: int)
    requires
        (d > 0 && 0 <= t <= d) || (d < 0 && d <= t <= 0),
    ensures
        a <= spec_floor_div(a * d + t * (b - a), d) <= b || b <= spec_floor_div(
            a * d + t * (b - a),
            d,
        ) <= a,
{
    let n = a * d + t * (b - a);
    if a <= b {
        if d > 0 {
            assert(a * d <= n <= b * d) by (nonlinear_arith)
                requires
                    n == a * d + t * (b - a),
                    0 <= t <= d,
                    a <= b,
            ;
        } else {
            assert(a * d >= n >= b * d) by (nonlinear_arith)
                requires
                    n == a * d + t * (b - a),
                    d <= t <= 0,
                    a <= b,
            ;
        }
        lemma_floor_div_between(n, d, a, b);
    } else {
        if d > 0 {
            assert(b * d <= n <= a * d) by (nonlinear_arith)
                requires
                    n == a * d + t * (b - a),
                    0 <= t <= d,
                    b <= a,
            ;
        } else {
            assert(b * d >= n >= a * d) by (nonlinear_arith)
                requires
                    n == a * d + t * (b - a),
                    d <= t <= 0,
                    b <= a,
            ;
        }
        lemma_floor_div_between(n, d, b, a);
    }
}

/// The cross product of two differences of points.
fn cross_value(ax: i64, ay: i64, bx: i64, by: i64) -> (c: i128)
    requires
        -0x1_0000_0000 <= ax <= 0x1_0000_0000,
        -0x1_0000_0000 <= ay <= 0x1_0000_0000,
        -0x1_0000_0000 <= bx <= 0x1_0000_0000,
        -0x1_0000_0000 <= by <= 0x1_0000_0000,
    ensures
        c == ax * by - ay * bx,
        -0x2_0000_0000_0000_0000 <= c <= 0x2_0000_0000_0000_0000,
{
    assert(-0x1_0000_0000_0000_0000 <= ax * by <= 0x1_0000_0000_0000_0000) by (nonlinear_arith)
        requires
            -0x1_0000_0000 <= ax <= 0x1_0000_0000,
            -0x1_0000_0000 <= by <= 0x1_0000_0000,
    ;
    assert(-0x1_0000_0000_0000_0000 <= ay * bx <= 0x1_0000_0000_0000_0000) by (nonlinear_arith)
        requires
            -0x1_0000_0000 <= ay <= 0x1_0000_0000,
            -0x1_0000_0000 <= bx <= 0x1_0000_0000,
    ;
    (ax as i128) * (by as i128) - (ay as i128) * (bx as i128)
}

/// A coordinate of the crossing that lies at `t / det` of the way from `a`
/// to `b`, rounded down.
fn crossing_coordinate(a: i32, b: i32, t: i128, det: i128) -> (c: i32)
    requires
        (det > 0 && 0 <= t <= det) || (det < 0 && det <= t <= 0),
        -0x2_0000_0000_0000_0000 <= det <= 0x2_0000_0000_0000_0000,
    ensures
        c == spec_floor_div(a * det + t * (b - a), det as int),
{
    let d: i128 = b as i128 - a as i128;
    assert(-0x1_0000_0000_0000_0000_0000_0000 <= a * det <= 0x1_0000_0000_0000_0000_0000_0000)
        by (nonlinear_arith)
        requires
            -0x8000_0000 <= a <= 0x8000_0000,
            -0x2_0000_0000_0000_0000 <= det <= 0x2_0000_0000_0000_0000,
    ;
    assert(-0x2_0000_0000_0000_0000_0000_0000 <= t * d <= 0x2_0000_0000_0000_0000_0000_0000)
        by (nonlinear_arith)
        requires
            -0x1_0000_0000 <= d <= 0x1_0000_0000,
            -0x2_0000_0000_0000_0000 <= t <= 0x2_0000_0000_0000_0000,
    ;
    let n: i128 = (a as i128) * det + t * d;
    proof {
        lemma_scaled_between(a as int, b as int, t as int, det as int);
    }
    let q = floor_div(n, det);
    q as i32
}

/// How two segments meet: see `spec_find_intersection`.
pub fn find_intersection(s1: &Segment, s2: &Segment) -> (r: Intersection)
    ensures
        r@ == spec_find_intersection(*s1, *s2),
{
    let d1x: i64 = s1.bottom.x as i64 - s1.top.x as i64;
    let d1y: i64 = s1.bottom.y as i64 - s1.top.y as i64;
    let d2x: i64 = s2.bottom.x as i64 - s2.top.x as i64;
    let d2y: i64 = s2.bottom.y as i64 - s2.top.y as i64;
    let det = cross_value(d1x, d1y, d2x, d2y);
    if det == 0 {
        if turn_value(s1.bottom, s1.top, s2.bottom) != 0 {
            return Intersection::NoIntersection;
        }
        let low = if s1.bottom < s2.bottom {
            s2.bottom
        } else {
            s1.bottom
        };
        let high = if s2.top < s1.top {
            s2.top
        } else {
            s1.top
        };
        if high < low {
            return Intersection::CollinearNoOverlap;
        }
        let mut res: Vec<Point> = Vec::new();
        res.push(low);
        if low != high {
            res.push(high);
            assert(res@ =~= seq![low, high]);
        } else {
            assert(res@ =~= seq![low]);
        }
        return Intersection::CollinearWithOverlap(res);
    }
    let wx: i64 = s2.top.x as i64 - s1.top.x as i64;
    let wy: i64 = s2.top.y as i64 - s1.top.y as i64;
    let t = cross_value(wx, wy, d2x, d2y);
    if (det > 0 && t < 0) || (det < 0 && t > 0) {
        return Intersection::PointIntersection(s1.top);
    }
    if !((det > 0 && t <= det) || (det < 0 && det <= t)) {
        return Intersection::PointIntersection(s1.bottom);
    }
    let x = crossing_coordinate(s1.top.x, s1.bottom.x, t, det);
    let y = crossing_coordinate(s1.top.y, s1.bottom.y, t, det);
    Intersection::PointIntersection(Point { x, y })
}

/// For parallel segments, an end of the one lies on the line through the
/// other exactly if an end of the other lies on the line through the one.
pub proof fn lemma_parallel_on_one_line(s1: Segment, s2: Segment)
    requires
        s1.wf(),
        s2.wf(),
        direction_cross(s1, s2) == 0,
    ensures
        turn(s1.bottom, s1.top, s2.bottom) == 0 <==> turn(s2.bottom, s2.top, s1.bottom) == 0,
{
    let d1x = s1.top.x - s1.bottom.x;
    let d1y = s1.top.y - s1.bottom.y;
    let d2x = s2.top.x - s2.bottom.x;
    let d2y = s2.top.y - s2.bottom.y;
    let wx = s2.bottom.x - s1.bottom.x;
    let wy = s2.bottom.y - s1.bottom.y;
    let a = d1x * wy - d1y * wx;
    let b = d2x * wy - d2y * wx;
    assert(d1x * d2y == d1y * d2x) by (nonlinear_arith)
        requires
            direction_cross(s1, s2) == 0,
            d1x == s1.top.x - s1.bottom.x,
            d1y == s1.top.y - s1.bottom.y,
            d2x == s2.top.x - s2.bottom.x,
            d2y == s2.top.y - s2.bottom.y,
    ;
    assert(turn(s1.bottom, s1.top, s2.bottom) == -a) by (nonlinear_arith)
        requires
            a == d1x * wy - d1y * wx,
            d1x == s1.top.x - s1.bottom.x,
            d1y == s1.top.y - s1.bottom.y,
            wx == s2.bottom.x - s1.bottom.x,
            wy == s2.bottom.y - s1.bottom.y,
    ;
    assert(turn(s2.bottom, s2.top, s1.bottom) == b) by (nonlinear_arith)
        requires
            b == d2x * wy - d2y * wx,
            d2x == s2.top.x - s2.bottom.x,
            d2y == s2.top.y - s2.bottom.y,
            wx == s2.bottom.x - s1.bottom.x,
            wy == s2.bottom.y - s1.bottom.y,
    ;
    assert(a * d2x == b * d1x && a * d2y == b * d1y) by (nonlinear_arith)
        requires
            a == d1x * wy - d1y * wx,
            b == d2x * wy - d2y * wx,
            d1x * d2y == d1y * d2x,
    ;
    assert(a == 0 <==> b == 0) by (nonlinear_arith)
        requires
            a * d2x == b * d1x,
            a * d2y == b * d1y,
            d1x != 0 || d1y != 0,
            d2x != 0 || d2y != 0,
    ;
}

/// With directions `u` and `v` and the displacement `w` between the starting
/// points of two lines, the two places of the crossing, each on its line,
/// name one point.
proof fn lemma_crossing_identity(ux: int, uy: int, vx: int, vy: int, wx: int, wy: int)
    ensures
        (wx * vy - wy * vx) * ux - wx * (ux * vy - uy * vx) + (wy * ux - wx * uy) * vx == 0,
        (wx * vy - wy * vx) * uy - wy * (ux * vy - uy * vx) + (wy * ux - wx * uy) * vy == 0,
{
    assert((wx * vy) * ux == wx * (ux * vy)) by (nonlinear_arith);
    assert((wy * vx) * ux == (wy * ux) * vx) by (nonlinear_arith);
    assert(wx * (uy * vx) == (wx * uy) * vx) by (nonlinear_arith);
    assert((wx * vy - wy * vx) * ux == (wx * vy) * ux - (wy * vx) * ux) by (nonlinear_arith);
    assert(wx * (ux * vy - uy * vx) == wx * (ux * vy) - wx * (uy * vx)) by (nonlinear_arith);
    assert((wy * ux - wx * uy) * vx == (wy * ux) * vx - (wx * uy) * vx) by (nonlinear_arith);
    assert((wx * vy) * uy == (wx * uy) * vy) by (nonlinear_arith);
    assert((wy * vx) * uy == wy * (uy * vx)) by (nonlinear_arith);
    assert(wy * (ux * vy) == (wy * ux) * vy) by (nonlinear_arith);
    assert((wx * vy - wy * vx) * uy == (wx * vy) * uy - (wy * vx) * uy) by (nonlinear_arith);
    assert(wy * (ux * vy - uy * vx) == wy * (ux * vy) - wy * (uy * vx)) by (nonlinear_arith);
    assert((wy * ux - wx * uy) * vy == (wy * ux) * vy - (wx * uy) * vy) by (nonlinear_arith);
}

/// The crossing of two lines is the same point from whichever line it is
/// computed.
pub proof fn lemma_crossing_point_symmetric(s1: Segment, s2: Segment)
    requires
        direction_cross(s1, s2) != 0,
    ensures
        direction_cross(s2, s1) == -direction_cross(s1, s2),
        crossing_point(s1, s2) == crossing_point(s2, s1),
{
    let (ax, ay) = (s1.top.x as int, s1.top.y as int);
    let (cx, cy) = (s2.top.x as int, s2.top.y as int);
    let (ux, uy) = (s1.bottom.x - s1.top.x, s1.bottom.y - s1.top.y);
    let (vx, vy) = (s2.bottom.x - s2.top.x, s2.bottom.y - s2.top.y);
    let (wx, wy) = (cx - ax, cy - ay);
    let det = ux * vy - uy * vx;
    let t = wx * vy - wy * vx;
    let t2 = wy * ux - wx * uy;
    assert(direction_cross(s1, s2) == det);
    assert(direction_cross(s2, s1) == -det) by (nonlinear_arith)
        requires
            direction_cross(s2, s1) == vx * uy - vy * ux,
            det == ux * vy - uy * vx,
    ;
    assert(crossing_numerator(s1, s2) == t);
    assert(crossing_numerator(s2, s1) == t2) by (nonlinear_arith)
        requires
            crossing_numerator(s2, s1) == (-wx) * uy - (-wy) * ux,
            t2 == wy * ux - wx * uy,
    ;
    lemma_crossing_identity(ux, uy, vx, vy, wx, wy);
    assert(cx * (-det) == -(ax * det) - wx * det) by (nonlinear_arith)
        requires
            cx == ax + wx,
    ;
    assert(cy * (-det) == -(ay * det) - wy * det) by (nonlinear_arith)
        requires
            cy == ay + wy,
    ;
    let n1x = ax * det + t * ux;
    let n1y = ay * det + t * uy;
    let n2x = cx * (-det) + t2 * vx;
    let n2y = cy * (-det) + t2 * vy;
    assert(n2x == -n1x);
    assert(n2y == -n1y);
    assert(spec_floor_div(n2x, -det) == spec_floor_div(n1x, det));
    assert(spec_floor_div(n2y, -det) == spec_floor_div(n1y, det));
}

/// Two segments meet in the same way in whichever order they are given,
/// where they are parallel or the crossing of their lines lies on both.
pub proof fn lemma_find_intersection_symmetric(s1: Segment, s2: Segment)
    requires
        s1.wf(),
        s2.wf(),
        direction_cross(s1, s2) == 0 || (crossing_on_first(s1, s2) && crossing_on_first(s2, s1)),
    ensures
        spec_find_intersection(s1, s2) == spec_find_intersection(s2, s1),
{
    if direction_cross(s1, s2) == 0 {
        assert(direction_cross(s2, s1) == 0) by (nonlinear_arith)
            requires
                direction_cross(s1, s2) == 0,
        ;
        lemma_parallel_on_one_line(s1, s2);
    } else {
        lemma_crossing_point_symmetric(s1, s2);
    }
}

/// Two segments cross: they meet, and not only in a common endpoint.
pub open spec fn crosses(s: Segment, t: Segment) -> bool {
    spec_do_intersect(s, t) && !spec_share_endpoint(s, t)
}

/// Neither segment lies as a whole before the other in the order of points.
pub open spec fn ranges_meet(s: Segment, t: Segment) -> bool {
    !s.top.spec_lt(t.bottom) && !t.top.spec_lt(s.bottom)
}

/// Two segments meet in whichever order they are given.
pub proof fn lemma_do_intersect_symmetric(s: Segment, t: Segment)
    ensures
        spec_do_intersect(s, t) == spec_do_intersect(t, s),
        crosses(s, t) == crosses(t, s),
{
}

/// With `d`, `g` and `f` as the crossing of two lines gives them, where the
/// crossing lies on both segments the one segment does not end before the
/// other begins.
proof fn lemma_no_crossing_core(
    ux: int,
    uy: int,
    vx: int,
    vy: int,
    wx: int,
    wy: int,
    d: int,
    g: int,
    f: int,
)
    requires
        d > 0,
        0 <= g <= d,
        -d <= f <= 0,
        wy * d == g * uy + f * vy,
        wx * d == g * ux + f * vx,
        uy > 0 || (uy == 0 && ux > 0),
        vy > 0 || (vy == 0 && vx > 0),
        !(uy == 0 && vy == 0),
    ensures
        wy < uy || (wy == uy && wx <= ux),
{
    if wy > uy || (wy == uy && wx > ux) {
        lemma_no_crossing_steps(ux, uy, vx, vy, wx, wy, d, g, f);
    }
}

/// The steps of `lemma_no_crossing_core`: a crossing on both segments lies
/// at the height at which the one ends and the other begins, and there it
/// lies on at most one of them.
proof fn lemma_no_crossing_steps(
    ux: int,
    uy: int,
    vx: int,
    vy: int,
    wx: int,
    wy: int,
    d: int,
    g: int,
    f: int,
)
    requires
        d > 0,
        0 <= g <= d,
        -d <= f <= 0,
        wy * d == g * uy + f * vy,
        wx * d == g * ux + f * vx,
        uy > 0 || (uy == 0 && ux > 0),
        vy > 0 || (vy == 0 && vx > 0),
        !(uy == 0 && vy == 0),
        wy > uy || (wy == uy && wx > ux),
    ensures
        wx <= ux,
        wy <= uy,
{
    assert(g * uy <= d * uy) by (nonlinear_arith)
        requires
            g <= d,
            uy >= 0,
    ;
    assert(f * vy <= 0) by (nonlinear_arith)
        requires
            f <= 0,
            vy >= 0,
    ;
    assert(wy <= uy) by (nonlinear_arith)
        requires
            wy * d <= d * uy,
            d > 0,
    ;
    // the crossing lies at the height at which the one segment ends and the
    // other begins
    assert(wy == uy && wx > ux);
    assert(g * uy == d * uy && f * vy == 0) by (nonlinear_arith)
        requires
            wy * d == g * uy + f * vy,
            wy == uy,
            g * uy <= d * uy,
            f * vy <= 0,
    ;
    if uy > 0 {
        assert(g == d) by (nonlinear_arith)
            requires
                g * uy == d * uy,
                uy > 0,
        ;
        assert((wx - ux) * d == f * vx) by (nonlinear_arith)
            requires
                wx * d == g * ux + f * vx,
                g == d,
        ;
        assert((wx - ux) * d > 0) by (nonlinear_arith)
            requires
                wx > ux,
                d > 0,
        ;
        if vy > 0 {
            assert(f == 0) by (nonlinear_arith)
                requires
                    f * vy == 0,
                    vy > 0,
            ;
            assert(f * vx == 0) by (nonlinear_arith)
                requires
                    f == 0,
            ;
        } else {
            assert(f * vx <= 0) by (nonlinear_arith)
                requires
                    f <= 0,
                    vx > 0,
            ;
        }
    } else {
        assert(f == 0) by (nonlinear_arith)
            requires
                f * vy == 0,
                vy > 0,
        ;
        assert(wx * d == g * ux) by (nonlinear_arith)
            requires
                wx * d == g * ux + f * vx,
                f == 0,
        ;
        assert(g * ux <= d * ux) by (nonlinear_arith)
            requires
                g <= d,
                ux > 0,
        ;
        assert(wx <= ux) by (nonlinear_arith)
            requires
                wx * d <= d * ux,
                d > 0,
        ;
    }
}

/// A segment that ends before another begins, in the order of points, does
/// not meet it.
pub proof fn lemma_separated_segments(s: Segment, t: Segment)
    requires
        s.wf(),
        t.wf(),
        s.top.spec_lt(t.bottom),
    ensures
        !spec_do_intersect(s, t),
        !spec_do_intersect(t, s),
{
    lemma_do_intersect_symmetric(s, t);
    let (ux, uy) = (s.top.x - s.bottom.x, s.top.y - s.bottom.y);
    let (vx, vy) = (t.top.x - t.bottom.x, t.top.y - t.bottom.y);
    let (wx, wy) = (t.bottom.x - s.bottom.x, t.bottom.y - s.bottom.y);
    let f = ux * wy - uy * wx;
    let d = ux * vy - uy * vx;
    let g = wx * vy - wy * vx;
    let t1 = turn(s.bottom, s.top, t.bottom);
    let t2 = turn(s.bottom, s.top, t.top);
    let t3 = turn(t.bottom, t.top, s.bottom);
    let t4 = turn(t.bottom, t.top, s.top);
    assert(t1 == uy * (wx - ux) - (wy - uy) * ux);
    assert(t2 == uy * (wx + vx - ux) - (wy + vy - uy) * ux);
    assert(t3 == vy * (-wx - vx) - (-wy - vy) * vx);
    assert(t4 == vy * (ux - wx - vx) - (uy - wy - vy) * vx);
    assert(t1 == -f) by (nonlinear_arith)
        requires
            t1 == uy * (wx - ux) - (wy - uy) * ux,
            f == ux * wy - uy * wx,
    ;
    assert(t2 == -f - d) by (nonlinear_arith)
        requires
            t2 == uy * (wx + vx - ux) - (wy + vy - uy) * ux,
            f == ux * wy - uy * wx,
            d == ux * vy - uy * vx,
    ;
    assert(t3 == -g) by (nonlinear_arith)
        requires
            t3 == vy * (-wx - vx) - (-wy - vy) * vx,
            g == wx * vy - wy * vx,
    ;
    assert(t4 == d - g) by (nonlinear_arith)
        requires
            t4 == vy * (ux - wx - vx) - (uy - wy - vy) * vx,
            g == wx * vy - wy * vx,
            d == ux * vy - uy * vx,
    ;
    let o1 = spec_orientation(s.bottom, s.top, t.bottom);
    let o2 = spec_orientation(s.bottom, s.top, t.top);
    let o3 = spec_orientation(t.bottom, t.top, s.bottom);
    let o4 = spec_orientation(t.bottom, t.top, s.top);
    // the segments do not cross
    if o1 != o2 && o3 != o4 {
        lemma_crossing_identity(ux, uy, vx, vy, wx, wy);
        let f0 = wy * ux - wx * uy;
        assert(f0 == f) by (nonlinear_arith)
            requires
                f0 == wy * ux - wx * uy,
                f == ux * wy - uy * wx,
        ;
        assert(g * ux - wx * d + f0 * vx == 0);
        assert(g * uy - wy * d + f0 * vy == 0);
        assert(wx * d == g * ux + f * vx && wy * d == g * uy + f * vy) by (nonlinear_arith)
            requires
                g * ux - wx * d + f0 * vx == 0,
                g * uy - wy * d + f0 * vy == 0,
                f0 == f,
        ;
        if uy == 0 && vy == 0 {
            assert(d == 0) by (nonlinear_arith)
                requires
                    d == ux * vy - uy * vx,
                    uy == 0,
                    vy == 0,
            ;
        }
        if d > 0 {
            lemma_no_crossing_core(ux, uy, vx, vy, wx, wy, d, g, f);
        } else if d < 0 {
            assert(wx * (-d) == (-g) * ux + (-f) * vx && wy * (-d) == (-g) * uy + (-f) * vy)
                by (nonlinear_arith)
                requires
                    wx * d == g * ux + f * vx,
                    wy * d == g * uy + f * vy,
            ;
            lemma_no_crossing_core(ux, uy, vx, vy, wx, wy, -d, -g, -f);
        }
    }
    // no end of one lies on the other
    if o1 == Orientation::Collinear && in_box(s.bottom, t.bottom, s.top) {
        assert(uy * (wx - ux) == 0) by (nonlinear_arith)
            requires
                t1 == uy * (wx - ux) - (wy - uy) * ux,
                t1 == 0,
                wy == uy,
        ;
        assert(uy == 0) by (nonlinear_arith)
            requires
                uy * (wx - ux) == 0,
                wx - ux > 0,
        ;
    }
    if o2 == Orientation::Collinear && in_box(s.bottom, t.top, s.top) {
        assert(uy * (wx + vx - ux) == 0) by (nonlinear_arith)
            requires
                t2 == uy * (wx + vx - ux) - (wy + vy - uy) * ux,
                t2 == 0,
                wy + vy == uy,
        ;
        assert(uy == 0) by (nonlinear_arith)
            requires
                uy * (wx + vx - ux) == 0,
                wx + vx - ux > 0,
        ;
    }
    if o3 == Orientation::Collinear && in_box(t.bottom, s.bottom, t.top) {
        assert(vy * wx == 0) by (nonlinear_arith)
            requires
                t3 == vy * (-wx - vx) - (-wy - vy) * vx,
                t3 == 0,
                wy == 0,
        ;
        assert(vy == 0) by (nonlinear_arith)
            requires
                vy * wx == 0,
                wx > 0,
        ;
    }
    if o4 == Orientation::Collinear && in_box(t.bottom, s.top, t.top) {
        assert(vy * (ux - wx) == 0) by (nonlinear_arith)
            requires
                t4 == vy * (ux - wx - vx) - (uy - wy - vy) * vx,
                t4 == 0,
                uy == wy,
        ;
        assert(vy == 0) by (nonlinear_arith)
            requires
                vy * (ux - wx) == 0,
                ux - wx < 0,
        ;
    }
}

/// Two segments that meet overlap in the order of points: neither lies as a
/// whole before the other.
pub proof fn lemma_meeting_segments_overlap(s: Segment, t: Segment)
    requires
        s.wf(),
        t.wf(),
        spec_do_intersect(s, t),
    ensures
        ranges_meet(s, t),
{
    if s.top.spec_lt(t.bottom) {
        lemma_separated_segments(s, t);
    }
    if t.top.spec_lt(s.bottom) {
        lemma_separated_segments(t, s);
    }
}

/// The pairs that the segment number `x` makes with those segments of a list
/// that it crosses, in the order of the list.
spec fn hits(segments: Seq<Segment>, x: usize, active: Seq<usize>) -> Seq<OrderedPair>
    decreases active.len(),
{
    if active.len() == 0 {
        Seq::empty()
    } else if crosses(segments[x as int], segments[active.last() as int]) {
        hits(segments, x, active.drop_last()).push(OrderedPair::spec_new(x, active.last()))
    } else {
        hits(segments, x, active.drop_last())
    }
}

/// A pair is among the hits of `x` exactly if it is the pair of `x` and a
/// segment of the list that `x` crosses; and no pair comes twice where no
/// segment does.
proof fn lemma_hits(segments: Seq<Segment>, x: usize, active: Seq<usize>)
    ensures
        forall|pair: OrderedPair|
            hits(segments, x, active).contains(pair) <==> exists|a: usize|
                #![trigger OrderedPair::spec_new(x, a)]
                active.contains(a) && crosses(segments[x as int], segments[a as int]) && pair
                    == OrderedPair::spec_new(x, a),
        active.no_duplicates() ==> hits(segments, x, active).no_duplicates(),
    decreases active.len(),
{
    let h = hits(segments, x, active);
    if active.len() == 0 {
        assert forall|pair: OrderedPair| h.contains(pair) <==> exists|a: usize|
            #![trigger OrderedPair::spec_new(x, a)]
            active.contains(a) && crosses(segments[x as int], segments[a as int]) && pair
                == OrderedPair::spec_new(x, a) by {}
    } else {
        let init = active.drop_last();
        let last = active.last();
        let rest = hits(segments, x, init);
        lemma_hits(segments, x, init);
        assert forall|a: usize| active.contains(a) <==> init.contains(a) || a == last by {
            if init.contains(a) {
                let i = choose|i: int| 0 <= i < init.len() && init[i] == a;
                assert(active[i] == a);
            }
            if a == last {
                assert(active[active.len() - 1] == a);
            }
            if active.contains(a) {
                let i = choose|i: int| 0 <= i < active.len() && active[i] == a;
                if i < init.len() {
                    assert(init[i] == a);
                }
            }
        }
        let hit = crosses(segments[x as int], segments[last as int]);
        assert forall|pair: OrderedPair| h.contains(pair) <==> exists|a: usize|
            #![trigger OrderedPair::spec_new(x, a)]
            active.contains(a) && crosses(segments[x as int], segments[a as int]) && pair
                == OrderedPair::spec_new(x, a) by {
            if h.contains(pair) {
                let i = choose|i: int| 0 <= i < h.len() && h[i] == pair;
                if i < rest.len() {
                    assert(rest[i] == pair);
                    assert(rest.contains(pair));
                    let a = choose|a: usize|
                        #![trigger OrderedPair::spec_new(x, a)]
                        init.contains(a) && crosses(segments[x as int], segments[a as int])
                            && pair == OrderedPair::spec_new(x, a);
                    assert(active.contains(a) && pair == OrderedPair::spec_new(x, a));
                } else {
                    assert(active.contains(last) && pair == OrderedPair::spec_new(x, last));
                }
            }
            if exists|a: usize|
                #![trigger OrderedPair::spec_new(x, a)]
                active.contains(a) && crosses(segments[x as int], segments[a as int]) && pair
                    == OrderedPair::spec_new(x, a) {
                let a = choose|a: usize|
                    #![trigger OrderedPair::spec_new(x, a)]
                    active.contains(a) && crosses(segments[x as int], segments[a as int]) && pair
                        == OrderedPair::spec_new(x, a);
                if a == last {
                    assert(h[h.len() - 1] == pair);
                } else {
                    assert(init.contains(a) && pair == OrderedPair::spec_new(x, a));
                    assert(rest.contains(pair));
                    let i = choose|i: int| 0 <= i < rest.len() && rest[i] == pair;
                    assert(h[i] == pair);
                }
            }
        }
        if active.no_duplicates() {
            assert(init.no_duplicates());
            if hit {
                assert(!rest.contains(OrderedPair::spec_new(x, last))) by {
                    if rest.contains(OrderedPair::spec_new(x, last)) {
                        let a = choose|a: usize|
                            #![trigger OrderedPair::spec_new(x, a)]
                            init.contains(a) && crosses(segments[x as int], segments[a as int])
                                && OrderedPair::spec_new(x, last) == OrderedPair::spec_new(x, a);
                        OrderedPair::lemma_new_equal(x, last, x, a);
                        let i = choose|i: int| 0 <= i < init.len() && init[i] == a;
                        assert(active[i] == active[active.len() - 1]);
                    }
                }
            }
        }
    }
}

/// Tests the segment number `x` against the active segments and records
/// the pairs that cross.
fn test_against_active(
    segments: &[Segment],
    x: usize,
    active: &Vec<usize>,
    r: &mut Vec<OrderedPair>,
)
    requires
        x < segments.len(),
        forall|i: int| 0 <= i < active.len() ==> active@[i] < segments.len(),
    ensures
        final(r)@ == old(r)@ + hits(segments@, x, active@),
{
    let mut m: usize = 0;
    assert(active@.take(0) =~= Seq::empty());
    assert(r@ =~= old(r)@ + hits(segments@, x, active@.take(0)));
    while m < active.len()
        invariant
            m <= active.len(),
            x < segments.len(),
            forall|i: int| 0 <= i < active.len() ==> active@[i] < segments.len(),
            r@ == old(r)@ + hits(segments@, x, active@.take(m as int)),
        decreases active.len() - m,
    {
        let a = active[m];
        proof {
            assert(active@.take(m + 1).drop_last() =~= active@.take(m as int));
            assert(active@.take(m + 1).last() == a);
        }
        if do_intersect(&segments[x], &segments[a]) && !share_endpoint(&segments[x], &segments[a]) {
            r.push(OrderedPair::new(x, a));
        }
        m += 1;
        assert(r@ =~= old(r)@ + hits(segments@, x, active@.take(m as int)));
    }
    assert(active@.take(m as int) =~= active@);
}

/// The list without the value `x`.
fn remove_value(list: &mut Vec<usize>, x: usize)
    requires
        old(list)@.no_duplicates(),
    ensures
        final(list)@.no_duplicates(),
        forall|a: usize| final(list)@.contains(a) <==> old(list)@.contains(a) && a != x,
{
    let mut k: usize = 0;
    while k < list.len()
        invariant
            k <= list.len(),
            list@ == old(list)@,
            list@.no_duplicates(),
            forall|i: int| 0 <= i < k ==> list@[i] != x,
        decreases list.len() - k,
    {
        if list[k] == x {
            let ghost before = list@;
            list.swap_remove(k);
            proof {
                let after = list@;
                assert forall|i: int, j: int|
                    0 <= i < after.len() && 0 <= j < after.len() && i != j implies after[i]
                    != after[j] by {
                    let i2 = if i == k {
                        before.len() - 1
                    } else {
                        i
                    };
                    let j2 = if j == k {
                        before.len() - 1
                    } else {
                        j
                    };
                    assert(after[i] == before[i2] && after[j] == before[j2]);
                }
                assert forall|a: usize| after.contains(a) <==> before.contains(a) && a != x by {
                    if after.contains(a) {
                        let i = choose|i: int| 0 <= i < after.len() && after[i] == a;
                        let i2 = if i == k {
                            before.len() - 1
                        } else {
                            i
                        };
                        assert(before[i2] == a);
                        assert(i2 != k);
                    }
                    if before.contains(a) && a != x {
                        let i = choose|i: int| 0 <= i < before.len() && before[i] == a;
                        if i == before.len() - 1 {
                            assert(after[k as int] == a);
                        } else {
                            assert(after[i] == a);
                        }
                    }
                }
            }
            return ;
        }
        k += 1;
    }
    assert forall|a: usize| list@.contains(a) <==> old(list)@.contains(a) && a != x by {
        if list@.contains(a) {
            let i = choose|i: int| 0 <= i < list@.len() && list@[i] == a;
            assert(list@[i] != x);
        }
    }
}

/// The sweep has passed the point `x` before its event number `g`.
spec fn passed(point_to_edges: PointToEdges, g: int, x: Point) -> bool {
    g >= point_to_edges.points.len() || point_to_edges.points[g].spec_lt(x)
}

/// Before the event number `g` the segment number `a` is active: the sweep
/// has passed its upper end and not its lower end.
spec fn is_active(
    segments: Seq<Segment>,
    point_to_edges: PointToEdges,
    g: int,
    a: usize,
) -> bool {
    &&& a < segments.len()
    &&& passed(point_to_edges, g, segments[a as int].top)
    &&& !passed(point_to_edges, g, segments[a as int].bottom)
}

/// The segment number `x` begins while the segment number `a` is active, and
/// crosses it.
spec fn met(segments: Seq<Segment>, x: usize, a: usize) -> bool {
    &&& x < segments.len()
    &&& a < segments.len()
    &&& segments[x as int].top.spec_lt(segments[a as int].top)
    &&& !segments[x as int].top.spec_lt(segments[a as int].bottom)
    &&& crosses(segments[x as int], segments[a as int])
}

/// One of the first `j` entries of the list names the edge number `x`.
spec fn entered_before(infos: Seq<PointEdgeInfo>, j: int, x: usize) -> bool {
    exists|k: int| 0 <= k < j && k < infos.len() && (#[trigger] infos[k]).edge_index == x
}

/// The segment number `x` has been tested: the sweep has passed its upper
/// end, or its upper end is the point `p` of the event and it is named by one
/// of the first `j` entries of the list of `p`.
spec fn due(
    segments: Seq<Segment>,
    point_to_edges: PointToEdges,
    g: int,
    infos: Seq<PointEdgeInfo>,
    j: int,
    p: Point,
    x: usize,
) -> bool {
    passed(point_to_edges, g, segments[x as int].top) || (segments[x as int].top == p
        && entered_before(infos, j, x))
}

/// The pair records a crossing of a segment that has been tested.
spec fn record_of(
    segments: Seq<Segment>,
    point_to_edges: PointToEdges,
    g: int,
    infos: Seq<PointEdgeInfo>,
    j: int,
    p: Point,
    pair: OrderedPair,
) -> bool {
    exists|x: usize, a: usize|
        #![trigger OrderedPair::spec_new(x, a)]
        OrderedPair::spec_new(x, a) == pair && met(segments, x, a) && due(
            segments,
            point_to_edges,
            g,
            infos,
            j,
            p,
            x,
        )
}

/// The list of pairs holds, each once, the crossings of the segments that
/// have been tested.
spec fn records(
    segments: Seq<Segment>,
    point_to_edges: PointToEdges,
    g: int,
    infos: Seq<PointEdgeInfo>,
    j: int,
    p: Point,
    r: Seq<OrderedPair>,
) -> bool {
    &&& r.no_duplicates()
    &&& forall|k: int|
        0 <= k < r.len() ==> record_of(segments, point_to_edges, g, infos, j, p, #[trigger] r[k])
    &&& forall|x: usize, a: usize|
        met(segments, x, a) && due(segments, point_to_edges, g, infos, j, p, x) ==> r.contains(
            #[trigger] OrderedPair::spec_new(x, a),
        )
}

/// The sweep passes an endpoint before its next event exactly if it has
/// passed it before this event or it is the point of this event.
proof fn lemma_passed_next(segments: Seq<Segment>, point_to_edges: PointToEdges, g: int, x: Point)
    requires
        point_to_edges.describes(segments),
        0 <= g < point_to_edges.points.len(),
        point_to_edges.points@.contains(x),
    ensures
        passed(point_to_edges, g + 1, x) <==> passed(point_to_edges, g, x) || x
            == point_to_edges.points[g],
{
    let points = point_to_edges.points@;
    let i = choose|i: int| 0 <= i < points.len() && points[i] == x;
    if i < g {
        assert(points[g].spec_lt(points[i]));
        if g + 1 < points.len() {
            assert(points[g + 1].spec_lt(points[i]));
        }
    } else if i > g {
        assert(points[i].spec_lt(points[g]));
        if i > g + 1 {
            assert(points[i].spec_lt(points[g + 1]));
        }
    } else {
        if g + 1 < points.len() {
            assert(points[g + 1].spec_lt(points[g]));
        }
    }
}

/// Before its first event the sweep has passed no endpoint, unless there is
/// no event at all.
proof fn lemma_not_passed_first(segments: Seq<Segment>, point_to_edges: PointToEdges, x: Point)
    requires
        point_to_edges.describes(segments),
        point_to_edges.points@.contains(x),
    ensures
        !passed(point_to_edges, 0, x),
{
    let points = point_to_edges.points@;
    let i = choose|i: int| 0 <= i < points.len() && points[i] == x;
    if i > 0 {
        assert(points[i].spec_lt(points[0]));
    }
}

/// Before the event number `g` the list holds, each once, the crossings of
/// the segments that have begun.
spec fn recorded(
    segments: Seq<Segment>,
    point_to_edges: PointToEdges,
    g: int,
    r: Seq<OrderedPair>,
) -> bool {
    records(segments, point_to_edges, g, Seq::empty(), 0, Point { x: 0, y: 0 }, r)
}

/// Tests the segments that begin at the point of the event number `g`
/// against the active segments, and records the pairs that cross.
fn test_entering(
    segments: &[Segment],
    point_to_edges: &PointToEdges,
    g: usize,
    active: &Vec<usize>,
    r: &mut Vec<OrderedPair>,
)
    requires
        g < point_to_edges.points.len(),
        point_to_edges.describes(segments@),
        forall|i: int| 0 <= i < segments.len() ==> (#[trigger] segments[i]).wf(),
        active@.no_duplicates(),
        forall|a: usize| active@.contains(a) <==> is_active(segments@, *point_to_edges, g as int, a),
        recorded(segments@, *point_to_edges, g as int, old(r)@),
    ensures
        recorded(segments@, *point_to_edges, g + 1, final(r)@),
{
    let ghost none = Seq::<PointEdgeInfo>::empty();
    let ghost origin = Point { x: 0, y: 0 };
    let p = point_to_edges.points[g];
    let infos = &point_to_edges.infos[g];
    assert(incident_list(segments@, p, infos@));
    proof {
        assert forall|k: int| 0 <= k < r.len() implies record_of(
            segments@,
            *point_to_edges,
            g as int,
            infos@,
            0,
            p,
            #[trigger] r[k],
        ) by {
            let (x0, a0) = choose|x0: usize, a0: usize|
                #![trigger OrderedPair::spec_new(x0, a0)]
                OrderedPair::spec_new(x0, a0) == r[k] && met(segments@, x0, a0) && due(
                    segments@,
                    *point_to_edges,
                    g as int,
                    none,
                    0,
                    origin,
                    x0,
                );
            assert(OrderedPair::spec_new(x0, a0) == r[k]);
        }
    }
    let mut j: usize = 0;
    while j < infos.len()
        invariant
            j <= infos.len(),
            g < point_to_edges.points.len(),
            p == point_to_edges.points[g as int],
            infos == point_to_edges.infos[g as int],
            point_to_edges.describes(segments@),
            incident_list(segments@, p, infos@),
            forall|i: int| 0 <= i < segments.len() ==> (#[trigger] segments[i]).wf(),
            active@.no_duplicates(),
            forall|a: usize|
                active@.contains(a) <==> is_active(segments@, *point_to_edges, g as int, a),
            records(segments@, *point_to_edges, g as int, infos@, j as int, p, r@),
        decreases infos.len() - j,
    {
        let info = infos[j];
        let x = info.edge_index;
        let ghost before = r@;
        assert(segments[x as int].wf());
        if info.opposite_point < p {
            assert forall|i: int| 0 <= i < active.len() implies active@[i] < segments.len() by {
                assert(active@.contains(active@[i]));
            }
            test_against_active(segments, x, active, r);
            proof {
                let h = hits(segments@, x, active@);
                lemma_hits(segments@, x, active@);
                assert(segments[x as int].top == p);
                // the new pairs are records
                assert forall|k: int| 0 <= k < r.len() implies record_of(
                    segments@,
                    *point_to_edges,
                    g as int,
                    infos@,
                    j + 1,
                    p,
                    #[trigger] r[k],
                ) by {
                    if k < before.len() {
                        assert(r[k] == before[k]);
                        let (x0, a0) = choose|x0: usize, a0: usize|
                            #![trigger OrderedPair::spec_new(x0, a0)]
                            OrderedPair::spec_new(x0, a0) == before[k] && met(
                                segments@,
                                x0,
                                a0,
                            ) && due(segments@, *point_to_edges, g as int, infos@, j as int, p, x0);
                        lemma_due_more(segments@, *point_to_edges, g as int, infos@, j as int, p, x0);
                        assert(OrderedPair::spec_new(x0, a0) == r[k]);
                    } else {
                        assert(h[k - before.len()] == r[k]);
                        assert(h.contains(r[k]));
                        let a = choose|a: usize|
                            #![trigger OrderedPair::spec_new(x, a)]
                            active@.contains(a) && crosses(
                                segments@[x as int],
                                segments@[a as int],
                            ) && r[k] == OrderedPair::spec_new(x, a);
                        assert(is_active(segments@, *point_to_edges, g as int, a));
                        assert(infos@[j as int].edge_index == x);
                        assert(entered_before(infos@, j + 1, x));
                        assert(met(segments@, x, a));
                        assert(OrderedPair::spec_new(x, a) == r[k]);
                    }
                }
                // every crossing that is due is recorded
                assert forall|x1: usize, a1: usize|
                    met(segments@, x1, a1) && due(
                        segments@,
                        *point_to_edges,
                        g as int,
                        infos@,
                        j + 1,
                        p,
                        x1,
                    ) implies r@.contains(#[trigger] OrderedPair::spec_new(x1, a1)) by {
                    let pair = OrderedPair::spec_new(x1, a1);
                    if due(segments@, *point_to_edges, g as int, infos@, j as int, p, x1) {
                        assert(before.contains(pair));
                        let i = choose|i: int| 0 <= i < before.len() && before[i] == pair;
                        assert(r@[i] == pair);
                    } else {
                        // x1 is the segment that has just been tested
                        let k = choose|k: int|
                            0 <= k < j + 1 && k < infos@.len() && (
                            #[trigger] infos@[k]).edge_index == x1;
                        if k < j {
                            assert(entered_before(infos@, j as int, x1));
                        }
                        assert(x1 == x);
                        assert(is_active(segments@, *point_to_edges, g as int, a1));
                        assert(active@.contains(a1));
                        assert(h.contains(pair));
                        let i = choose|i: int| 0 <= i < h.len() && h[i] == pair;
                        assert(r@[before.len() + i] == pair);
                    }
                }
                // no pair comes twice
                assert forall|k1: int, k2: int|
                    0 <= k1 < r.len() && 0 <= k2 < r.len() && k1 != k2 implies r@[k1]
                    != r@[k2] by {
                    if k1 < before.len() && k2 < before.len() {
                        assert(before[k1] != before[k2]);
                    } else if k1 >= before.len() && k2 >= before.len() {
                        assert(h[k1 - before.len()] != h[k2 - before.len()]);
                    } else {
                        let (ko, kn) = if k1 < before.len() {
                            (k1, k2)
                        } else {
                            (k2, k1)
                        };
                        let (x0, a0) = choose|x0: usize, a0: usize|
                            #![trigger OrderedPair::spec_new(x0, a0)]
                            OrderedPair::spec_new(x0, a0) == before[ko] && met(
                                segments@,
                                x0,
                                a0,
                            ) && due(segments@, *point_to_edges, g as int, infos@, j as int, p, x0);
                        assert(h[kn - before.len()] == r@[kn]);
                        assert(h.contains(r@[kn]));
                        let a = choose|a: usize|
                            #![trigger OrderedPair::spec_new(x, a)]
                            active@.contains(a) && crosses(
                                segments@[x as int],
                                segments@[a as int],
                            ) && r@[kn] == OrderedPair::spec_new(x, a);
                        assert(is_active(segments@, *point_to_edges, g as int, a));
                        if before[ko] == r@[kn] {
                            OrderedPair::lemma_new_equal(x0, a0, x, a);
                            if x0 == x {
                                let k = choose|k: int|
                                    0 <= k < j && k < infos@.len() && (
                                    #[trigger] infos@[k]).edge_index == x0;
                                lemma_incident_distinct(segments@, p, infos@, k, j as int);
                            }
                        }
                    }
                }
            }
        } else {
            proof {
                assert(segments@[x as int].has_endpoint(info.opposite_point));
                assert(segments[x as int].top != p);
                assert forall|x1: usize, a1: usize|
                    met(segments@, x1, a1) && due(
                        segments@,
                        *point_to_edges,
                        g as int,
                        infos@,
                        j + 1,
                        p,
                        x1,
                    ) implies r@.contains(#[trigger] OrderedPair::spec_new(x1, a1)) by {
                    if !passed(*point_to_edges, g as int, segments@[x1 as int].top) {
                        let k = choose|k: int|
                            0 <= k < j + 1 && k < infos@.len() && (
                            #[trigger] infos@[k]).edge_index == x1;
                        assert(k != j);
                        assert(entered_before(infos@, j as int, x1));
                    }
                }
                assert forall|k: int| 0 <= k < r.len() implies record_of(
                    segments@,
                    *point_to_edges,
                    g as int,
                    infos@,
                    j + 1,
                    p,
                    #[trigger] r[k],
                ) by {
                    let (x0, a0) = choose|x0: usize, a0: usize|
                        #![trigger OrderedPair::spec_new(x0, a0)]
                        OrderedPair::spec_new(x0, a0) == r[k] && met(segments@, x0, a0) && due(
                            segments@,
                            *point_to_edges,
                            g as int,
                            infos@,
                            j as int,
                            p,
                            x0,
                        );
                    lemma_due_more(segments@, *point_to_edges, g as int, infos@, j as int, p, x0);
                    assert(OrderedPair::spec_new(x0, a0) == r[k]);
                }
            }
        }
        j += 1;
    }
    proof {
        assert forall|x1: usize|
            x1 < segments.len() implies (due(
                segments@,
                *point_to_edges,
                g as int,
                infos@,
                infos@.len() as int,
                p,
                x1,
            ) <==> due(segments@, *point_to_edges, g + 1, none, 0, origin, x1)) by {
            let s = segments[x1 as int];
            assert(s.wf());
            assert(s.has_endpoint(s.top));
            lemma_passed_next(segments@, *point_to_edges, g as int, s.top);
            if s.top == p {
                let k = choose|k: int|
                    0 <= k < infos@.len() && (#[trigger] infos@[k]).edge_index == x1;
                assert(entered_before(infos@, infos@.len() as int, x1));
            }
        }
        assert forall|k: int| 0 <= k < r.len() implies record_of(
            segments@,
            *point_to_edges,
            g + 1,
            none,
            0,
            origin,
            #[trigger] r[k],
        ) by {
            let (x0, a0) = choose|x0: usize, a0: usize|
                #![trigger OrderedPair::spec_new(x0, a0)]
                OrderedPair::spec_new(x0, a0) == r[k] && met(segments@, x0, a0) && due(
                    segments@,
                    *point_to_edges,
                    g as int,
                    infos@,
                    infos@.len() as int,
                    p,
                    x0,
                );
            assert(OrderedPair::spec_new(x0, a0) == r[k]);
        }
    }
}

/// Makes the segments that begin at the point of the event number `g`
/// active.
fn add_entering(
    segments: &[Segment],
    point_to_edges: &PointToEdges,
    g: usize,
    active: &mut Vec<usize>,
)
    requires
        g < point_to_edges.points.len(),
        point_to_edges.describes(segments@),
        forall|i: int| 0 <= i < segments.len() ==> (#[trigger] segments[i]).wf(),
        old(active)@.no_duplicates(),
        forall|a: usize|
            old(active)@.contains(a) <==> is_active(segments@, *point_to_edges, g as int, a),
    ensures
        final(active)@.no_duplicates(),
        forall|a: usize|
            final(active)@.contains(a) <==> is_active(segments@, *point_to_edges, g as int, a) || (a
                < segments.len() && segments[a as int].top == point_to_edges.points[g as int]),
{
    let p = point_to_edges.points[g];
    let infos = &point_to_edges.infos[g];
    assert(incident_list(segments@, p, infos@));
    // the segments that begin here become active
    let mut j: usize = 0;
    while j < infos.len()
        invariant
            j <= infos.len(),
            g < point_to_edges.points.len(),
            p == point_to_edges.points[g as int],
            infos == point_to_edges.infos[g as int],
            point_to_edges.describes(segments@),
            incident_list(segments@, p, infos@),
            forall|i: int| 0 <= i < segments.len() ==> (#[trigger] segments[i]).wf(),
            active@.no_duplicates(),
            forall|a: usize|
                active@.contains(a) <==> is_active(segments@, *point_to_edges, g as int, a) || (a
                    < segments.len() && segments[a as int].top == p && entered_before(
                    infos@,
                    j as int,
                    a,
                )),
        decreases infos.len() - j,
    {
        let info = infos[j];
        let x = info.edge_index;
        let ghost before = active@;
        assert(segments[x as int].wf());
        if info.opposite_point < p {
            active.push(x);
            proof {
                assert(segments[x as int].top == p);
                assert(!before.contains(x)) by {
                    if entered_before(infos@, j as int, x) {
                        let k = choose|k: int|
                            0 <= k < j && k < infos@.len() && (
                            #[trigger] infos@[k]).edge_index == x;
                        lemma_incident_distinct(segments@, p, infos@, k, j as int);
                    }
                }
                assert forall|a: usize| active@.contains(a) <==> before.contains(a) || a == x by {
                    if before.contains(a) {
                        let i = choose|i: int| 0 <= i < before.len() && before[i] == a;
                        assert(active@[i] == a);
                    }
                    if a == x {
                        assert(active@[before.len() as int] == a);
                    }
                }
                assert(infos@[j as int].edge_index == x);
            }
        }
        proof {
            let pushed = info.opposite_point.spec_lt(p);
            assert(infos@[j as int].edge_index == x);
            assert(segments@[x as int].has_endpoint(info.opposite_point));
            assert(segments@[x as int].has_endpoint(p));
            assert(entered_before(infos@, j + 1, x));
            assert(pushed <==> segments@[x as int].top == p);
            assert forall|a: usize|
                active@.contains(a) <==> is_active(segments@, *point_to_edges, g as int, a) || (a
                    < segments.len() && segments[a as int].top == p && entered_before(
                    infos@,
                    j + 1,
                    a,
                )) by {
                let was = before.contains(a);
                assert(was <==> is_active(segments@, *point_to_edges, g as int, a) || (a
                    < segments.len() && segments[a as int].top == p && entered_before(
                    infos@,
                    j as int,
                    a,
                )));
                assert(active@.contains(a) <==> was || (pushed && a == x));
                if entered_before(infos@, j + 1, a) {
                    let k = choose|k: int|
                        0 <= k < j + 1 && k < infos@.len() && (
                        #[trigger] infos@[k]).edge_index == a;
                    if k < j {
                        assert(entered_before(infos@, j as int, a));
                    } else {
                        assert(a == x);
                    }
                }
                if entered_before(infos@, j as int, a) {
                    let k = choose|k: int|
                        0 <= k < j && k < infos@.len() && (#[trigger] infos@[k]).edge_index
                            == a;
                    assert(0 <= k < j + 1);
                    assert(entered_before(infos@, j + 1, a));
                }
            }
        }
        j += 1;
    }
    proof {
        assert forall|a: usize|
            active@.contains(a) <==> is_active(segments@, *point_to_edges, g as int, a) || (a
                < segments.len() && segments[a as int].top == p) by {
            if a < segments.len() && segments[a as int].top == p {
                assert(segments[a as int].has_endpoint(p));
                let k = choose|k: int|
                    0 <= k < infos@.len() && (#[trigger] infos@[k]).edge_index == a;
                assert(entered_before(infos@, infos@.len() as int, a));
            }
        }
    }
}

/// Takes the segments that end at the point of the event number `g` out of
/// the active segments.
fn remove_leaving(
    segments: &[Segment],
    point_to_edges: &PointToEdges,
    g: usize,
    active: &mut Vec<usize>,
)
    requires
        g < point_to_edges.points.len(),
        point_to_edges.describes(segments@),
        forall|i: int| 0 <= i < segments.len() ==> (#[trigger] segments[i]).wf(),
        old(active)@.no_duplicates(),
        forall|a: usize|
            old(active)@.contains(a) <==> is_active(segments@, *point_to_edges, g as int, a) || (a
                < segments.len() && segments[a as int].top == point_to_edges.points[g as int]),
    ensures
        final(active)@.no_duplicates(),
        forall|a: usize|
            final(active)@.contains(a) <==> is_active(segments@, *point_to_edges, g + 1, a),
{
    let p = point_to_edges.points[g];
    let infos = &point_to_edges.infos[g];
    assert(incident_list(segments@, p, infos@));
    // the segments that end here stop being active
    let mut j: usize = 0;
    while j < infos.len()
        invariant
            j <= infos.len(),
            g < point_to_edges.points.len(),
            p == point_to_edges.points[g as int],
            infos == point_to_edges.infos[g as int],
            point_to_edges.describes(segments@),
            incident_list(segments@, p, infos@),
            forall|i: int| 0 <= i < segments.len() ==> (#[trigger] segments[i]).wf(),
            active@.no_duplicates(),
            forall|a: usize|
                active@.contains(a) <==> (is_active(segments@, *point_to_edges, g as int, a) || (a
                    < segments.len() && segments[a as int].top == p)) && !(segments[a as int].bottom
                    == p && entered_before(infos@, j as int, a)),
        decreases infos.len() - j,
    {
        let info = infos[j];
        let x = info.edge_index;
        let ghost before = active@;
        assert(segments[x as int].wf());
        if p < info.opposite_point {
            remove_value(active, x);
            assert(segments[x as int].bottom == p);
        }
        proof {
            assert(infos@[j as int].edge_index == x);
            assert forall|a: usize|
                active@.contains(a) <==> (is_active(segments@, *point_to_edges, g as int, a) || (a
                    < segments.len() && segments[a as int].top == p)) && !(segments[a as int].bottom
                    == p && entered_before(infos@, j + 1, a)) by {
                if entered_before(infos@, j + 1, a) {
                    let k = choose|k: int|
                        0 <= k < j + 1 && k < infos@.len() && (
                        #[trigger] infos@[k]).edge_index == a;
                    if k < j {
                        assert(entered_before(infos@, j as int, a));
                    }
                }
                if entered_before(infos@, j as int, a) {
                    let k = choose|k: int|
                        0 <= k < j && k < infos@.len() && (#[trigger] infos@[k]).edge_index
                            == a;
                    assert(0 <= k < j + 1);
                }
                if a == x {
                    assert(entered_before(infos@, j + 1, a));
                }
            }
        }
        j += 1;
    }
    proof {
        // the state before the next event
        assert forall|a: usize|
            active@.contains(a) <==> is_active(segments@, *point_to_edges, g + 1, a) by {
            if a < segments.len() {
                let s = segments[a as int];
                assert(s.wf());
                assert(s.has_endpoint(s.top) && s.has_endpoint(s.bottom));
                lemma_passed_next(segments@, *point_to_edges, g as int, s.top);
                lemma_passed_next(segments@, *point_to_edges, g as int, s.bottom);
                if s.bottom == p {
                    let k = choose|k: int|
                        0 <= k < infos@.len() && (#[trigger] infos@[k]).edge_index == a;
                    assert(entered_before(infos@, infos@.len() as int, a));
                }
            }
        }
    }
}

/// The pairs of segments of a list that cross, found by a sweep from the
/// highest endpoint down.
///
/// At each endpoint the segments that begin there are tested against the
/// segments that are active, which are those that have begun above and have
/// not ended above. Segments that are never tested against each other lie
/// one as a whole before the other in the order of points, and do not meet.
/// Each pair that crosses is returned once, with the lower index first.
pub fn find_intersections(segments: &[Segment]) -> (r: Vec<OrderedPair>)
    requires
        forall|i: int| 0 <= i < segments.len() ==> (#[trigger] segments[i]).wf(),
    ensures
        r@.no_duplicates(),
        forall|a: usize, b: usize|
            a < segments.len() && b < segments.len() ==> (r@.contains(
                #[trigger] OrderedPair::spec_new(a, b),
            ) <==> crosses(segments[a as int], segments[b as int])),
        forall|k: int|
            0 <= k < r.len() ==> (#[trigger] r[k]).spec_first() < r[k].spec_second() && r[k].spec_second()
                < segments.len(),
        forall|k: int|
            0 <= k < r.len() ==> (#[trigger] r[k]) == OrderedPair::spec_new(
                r[k].spec_first(),
                r[k].spec_second(),
            ),
{
    let point_to_edges = get_points_edges(segments);
    let mut r: Vec<OrderedPair> = Vec::new();
    let mut active: Vec<usize> = Vec::new();
    let ghost none = Seq::<PointEdgeInfo>::empty();
    let ghost origin = Point { x: 0, y: 0 };
    let mut g: usize = 0;
    proof {
        assert forall|a: usize| !is_active(segments@, point_to_edges, 0, a) by {
            if a < segments.len() {
                let s = segments[a as int];
                assert(s.has_endpoint(s.top) && s.has_endpoint(s.bottom));
                lemma_not_passed_first(segments@, point_to_edges, s.top);
                lemma_not_passed_first(segments@, point_to_edges, s.bottom);
            }
        }
        assert forall|x: usize, a: usize|
            met(segments@, x, a) && due(
                segments@,
                point_to_edges,
                0,
                none,
                0,
                origin,
                x,
            ) implies r@.contains(#[trigger] OrderedPair::spec_new(x, a)) by {
            let s = segments[x as int];
            assert(s.has_endpoint(s.top));
            lemma_not_passed_first(segments@, point_to_edges, s.top);
        }
    }
    while g < point_to_edges.points.len()
        invariant
            g <= point_to_edges.points.len(),
            point_to_edges.describes(segments@),
            forall|i: int| 0 <= i < segments.len() ==> (#[trigger] segments[i]).wf(),
            active@.no_duplicates(),
            forall|a: usize| active@.contains(a) <==> is_active(segments@, point_to_edges, g as int, a),
            recorded(segments@, point_to_edges, g as int, r@),
        decreases point_to_edges.points.len() - g,
    {
        test_entering(segments, &point_to_edges, g, &active, &mut r);
        add_entering(segments, &point_to_edges, g, &mut active);
        remove_leaving(segments, &point_to_edges, g, &mut active);
        g += 1;
    }
    proof {
        let n = point_to_edges.points.len() as int;
        assert forall|a: usize, b: usize| a < segments.len() && b < segments.len() implies (r@.contains(
            #[trigger] OrderedPair::spec_new(a, b),
        ) <==> crosses(segments[a as int], segments[b as int])) by {
            let sa = segments[a as int];
            let sb = segments[b as int];
            assert(sa.wf() && sb.wf());
            lemma_do_intersect_symmetric(sa, sb);
            OrderedPair::lemma_new(a, b);
            let pair = OrderedPair::spec_new(a, b);
            if crosses(sa, sb) {
                lemma_meeting_segments_overlap(sa, sb);
                if sa.top.spec_lt(sb.top) {
                    assert(met(segments@, a, b));
                    assert(r@.contains(OrderedPair::spec_new(a, b)));
                } else {
                    assert(met(segments@, b, a));
                    assert(r@.contains(OrderedPair::spec_new(b, a)));
                }
            }
            if r@.contains(pair) {
                let k = choose|k: int| 0 <= k < r.len() && r@[k] == pair;
                let (x0, a0) = choose|x0: usize, a0: usize|
                    #![trigger OrderedPair::spec_new(x0, a0)]
                    OrderedPair::spec_new(x0, a0) == r[k] && met(segments@, x0, a0) && due(
                        segments@,
                        point_to_edges,
                        n,
                        none,
                        0,
                        origin,
                        x0,
                    );
                OrderedPair::lemma_new_equal(x0, a0, a, b);
                assert(segments[x0 as int].wf() && segments[a0 as int].wf());
            }
        }
        assert forall|k: int| 0 <= k < r.len() implies (#[trigger] r[k]).spec_first()
            < r[k].spec_second() && r[k].spec_second() < segments.len() by {
            let (x0, a0) = choose|x0: usize, a0: usize|
                #![trigger OrderedPair::spec_new(x0, a0)]
                OrderedPair::spec_new(x0, a0) == r[k] && met(segments@, x0, a0) && due(
                    segments@,
                    point_to_edges,
                    n,
                    none,
                    0,
                    origin,
                    x0,
                );
            OrderedPair::lemma_new(x0, a0);
        }
    }
    r
}

/// A segment that has been tested stays tested when the list of the event is
/// read further.
proof fn lemma_due_more(
    segments: Seq<Segment>,
    point_to_edges: PointToEdges,
    g: int,
    infos: Seq<PointEdgeInfo>,
    j: int,
    p: Point,
    x: usize,
)
    requires
        due(segments, point_to_edges, g, infos, j, p, x),
    ensures
        due(segments, point_to_edges, g, infos, j + 1, p, x),
{
    if !passed(point_to_edges, g, segments[x as int].top) {
        let k = choose|k: int| 0 <= k < j && k < infos.len() && (#[trigger] infos[k]).edge_index == x;
        assert(0 <= k < j + 1);
    }
}

} // verus!
