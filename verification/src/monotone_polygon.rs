//! Monotone polygons and their triangulation with a stack over the two
//! chains.
use crate::area::{
    area2, cut_sum, fan_well_turned, fans_well_turned, lemma_area2_turn, lemma_cut, toward,
    well_turned,
};
use crate::point::{
    orientation, spec_orientation, turn_value, Orientation, Point, PointTriangle,
};
use std::collections::VecDeque;
use vstd::prelude::*;

verus! {

/// A polygon that every horizontal line meets in at most one stretch, given by
/// its highest point, its two chains from the top down, and, once it is
/// finished, its lowest point.
#[derive(Debug, PartialEq, Eq)]
pub struct MonotonePolygon {
    pub top: Point,
    pub bottom: Option<Point>,
    pub left: Vec<Point>,
    pub right: Vec<Point>,
}

/// What a monotone polygon holds, as mathematical sequences.
pub struct MonotonePolygonView {
    pub top: Point,
    pub bottom: Option<Point>,
    pub left: Seq<Point>,
    pub right: Seq<Point>,
}

/// The chain on which a point of a monotone polygon lies.
#[derive(Debug, Clone, Copy, PartialEq, Eq, Structural)]
pub enum Side {
    TopOrBottom,
    Left,
    Right,
}

impl View for MonotonePolygon {
    type V = MonotonePolygonView;

    open spec fn view(&self) -> MonotonePolygonView {
        MonotonePolygonView {
            top: self.top,
            bottom: self.bottom,
            left: self.left@,
            right: self.right@,
        }
    }
}

impl MonotonePolygonView {
    /// The polygon that has only its top.
    pub open spec fn new(top: Point) -> MonotonePolygonView {
        MonotonePolygonView { top, bottom: None, left: Seq::empty(), right: Seq::empty() }
    }

    /// The polygon closed at `p`.
    pub open spec fn with_bottom(self, p: Point) -> MonotonePolygonView {
        MonotonePolygonView { bottom: Some(p), ..self }
    }

    /// The polygon with `p` at the end of its left chain.
    pub open spec fn push_left(self, p: Point) -> MonotonePolygonView {
        MonotonePolygonView { left: self.left.push(p), ..self }
    }

    /// The polygon with `p` at the end of its right chain.
    pub open spec fn push_right(self, p: Point) -> MonotonePolygonView {
        MonotonePolygonView { right: self.right.push(p), ..self }
    }
}

/// The views of a list of polygons.
pub open spec fn views(polygons: Seq<MonotonePolygon>) -> Seq<MonotonePolygonView> {
    polygons.map_values(|q: MonotonePolygon| q@)
}

/// The polygons of a list, each closed at `p`.
pub open spec fn close_all(polygons: Seq<MonotonePolygonView>, p: Point) -> Seq<
    MonotonePolygonView,
> {
    polygons.map_values(|q: MonotonePolygonView| q.with_bottom(p))
}

/// A copy of a list of points.
pub fn copy_points(points: &Vec<Point>) -> (r: Vec<Point>)
    ensures
        r@ == points@,
{
    let mut r: Vec<Point> = Vec::with_capacity(points.len());
    let mut i: usize = 0;
    while i < points.len()
        invariant
            i <= points.len(),
            r@ == points@.take(i as int),
        decreases points.len() - i,
    {
        r.push(points[i]);
        i += 1;
    }
    assert(points@.take(points.len() as int) == points@);
    r
}

impl MonotonePolygon {
    /// The polygon that has only its top.
    pub fn new(top: Point) -> (r: Self)
        ensures
            r@ == MonotonePolygonView::new(top),
    {
        MonotonePolygon { top, bottom: None, left: Vec::new(), right: Vec::new() }
    }

    /// The polygon that has only its top.
    pub fn new_top(top: Point) -> (r: Self)
        ensures
            r@ == MonotonePolygonView::new(top),
    {
        MonotonePolygon::new(top)
    }

    /// The polygon has its lowest point.
    pub fn finished(&self) -> (r: bool)
        ensures
            r == self@.bottom.is_some(),
    {
        self.bottom.is_some()
    }

    /// A copy of the polygon.
    pub fn duplicate(&self) -> (r: Self)
        ensures
            r@ == self@,
    {
        MonotonePolygon {
            top: self.top,
            bottom: self.bottom,
            left: copy_points(&self.left),
            right: copy_points(&self.right),
        }
    }

    /// A copy of the polygon closed at `p`.
    pub fn closed_at(&self, p: Point) -> (r: Self)
        ensures
            r@ == self@.with_bottom(p),
    {
        MonotonePolygon {
            top: self.top,
            bottom: Some(p),
            left: copy_points(&self.left),
            right: copy_points(&self.right),
        }
    }
}

impl Clone for MonotonePolygon {
    fn clone(&self) -> (r: Self)
        ensures
            r@ == self@,
    {
        self.duplicate()
    }
}

/// The two chains merged into one list from the top down, each point with its
/// side. Of two points that come next, the later one in the order of points is
/// taken first; where neither comes before the other, the left one is.
pub open spec fn merge_chains(left: Seq<Point>, right: Seq<Point>) -> Seq<(Point, Side)>
    decreases left.len() + right.len(),
{
    if left.len() == 0 {
        right.map_values(|p: Point| (p, Side::Right))
    } else if right.len() == 0 {
        left.map_values(|p: Point| (p, Side::Left))
    } else if left[0].spec_lt(right[0]) {
        seq![(right[0], Side::Right)] + merge_chains(left, right.drop_first())
    } else {
        seq![(left[0], Side::Left)] + merge_chains(left.drop_first(), right)
    }
}

/// All points of a finished polygon from the top down: the top, the merged
/// chains, the bottom.
pub open spec fn polygon_points(polygon: MonotonePolygonView) -> Seq<(Point, Side)>
    recommends
        polygon.bottom.is_some(),
{
    seq![(polygon.top, Side::TopOrBottom)] + merge_chains(polygon.left, polygon.right) + seq![
        (polygon.bottom.unwrap(), Side::TopOrBottom),
    ]
}

/// The fan that a point on the other side makes with the stack: one triangle
/// for each two neighbours on the stack, from the oldest on.
pub open spec fn opposite_triangles(stack: Seq<Point>, p: Point) -> Seq<PointTriangle> {
    Seq::new(
        (stack.len() - 1) as nat,
        |i: int| PointTriangle::spec_new(p, stack[i], stack[i + 1]),
    )
}

/// The stack after a point on the other side: its newest point, then `p`.
pub open spec fn opposite_stack(stack: Seq<Point>, p: Point) -> Seq<Point> {
    seq![stack.last(), p]
}

/// Whether a point on the same side cuts off the corner at the last point of
/// the stack: on the left chain where the turn from the last two points of the
/// stack to `p` is clockwise or the three lie on a line, on the right chain
/// where it is counter-clockwise.
pub open spec fn cuts_corner(a: Point, b: Point, p: Point, side: Side) -> bool {
    match side {
        Side::Left => spec_orientation(a, b, p) == Orientation::Clockwise || spec_orientation(
            a,
            b,
            p,
        ) == Orientation::Collinear,
        Side::Right => spec_orientation(a, b, p) == Orientation::CounterClockwise,
        Side::TopOrBottom => false,
    }
}

/// How many points of the stack stay below a point on the same side: corners
/// are cut off from the newest on for as long as `cuts_corner` holds, and the
/// oldest point always stays.
pub open spec fn same_side_kept(stack: Seq<Point>, p: Point, side: Side) -> nat
    decreases stack.len(),
{
    if stack.len() >= 2 && cuts_corner(stack[stack.len() - 2], stack[stack.len() - 1], p, side) {
        same_side_kept(stack.drop_last(), p, side)
    } else {
        stack.len()
    }
}

/// The triangles that a point on the same side cuts off, from the newest point
/// of the stack on.
pub open spec fn same_side_triangles(stack: Seq<Point>, p: Point, side: Side) -> Seq<
    PointTriangle,
> {
    Seq::new(
        (stack.len() - same_side_kept(stack, p, side)) as nat,
        |k: int|
            PointTriangle::spec_new(p, stack[stack.len() - 1 - k], stack[stack.len() - 2 - k]),
    )
}

/// The stack after a point on the same side: what was kept, then `p`.
pub open spec fn same_side_stack(stack: Seq<Point>, p: Point, side: Side) -> Seq<Point> {
    stack.take(same_side_kept(stack, p, side) as int).push(p)
}

/// The triangles made from the `k`-th point on, with `stack` built from the
/// points before it, the last of them on `side`.
pub open spec fn triangles_from(
    points: Seq<(Point, Side)>,
    k: int,
    stack: Seq<Point>,
    side: Side,
) -> Seq<PointTriangle>
    decreases points.len() - k,
{
    if k < 0 || k >= points.len() {
        Seq::empty()
    } else if points[k].1 == side {
        same_side_triangles(stack, points[k].0, side) + triangles_from(
            points,
            k + 1,
            same_side_stack(stack, points[k].0, side),
            points[k].1,
        )
    } else {
        opposite_triangles(stack, points[k].0) + triangles_from(
            points,
            k + 1,
            opposite_stack(stack, points[k].0),
            points[k].1,
        )
    }
}

/// The triangulation of a finished monotone polygon.
pub open spec fn spec_triangulate(polygon: MonotonePolygonView) -> Seq<PointTriangle>
    recommends
        polygon.bottom.is_some(),
{
    let points = polygon_points(polygon);
    triangles_from(points, 2, seq![points[0].0, points[1].0], points[1].1)
}

/// The same-side rule never lets go of the oldest point of the stack.
pub proof fn lemma_same_side_kept_bounds(stack: Seq<Point>, p: Point, side: Side)
    requires
        stack.len() >= 1,
    ensures
        1 <= same_side_kept(stack, p, side) <= stack.len(),
    decreases stack.len(),
{
    if stack.len() >= 2 && cuts_corner(stack[stack.len() - 2], stack[stack.len() - 1], p, side) {
        lemma_same_side_kept_bounds(stack.drop_last(), p, side);
    }
}

/// All points of the polygon from the top down, each with its side.
pub(crate) fn merge_polygon_chains(polygon: &MonotonePolygon) -> (points: Vec<(Point, Side)>)
    requires
        polygon@.bottom.is_some(),
    ensures
        points@ == polygon_points(polygon@),
        points.len() >= 2,
{
    let mut points: Vec<(Point, Side)> = Vec::new();
    points.push((polygon.top, Side::TopOrBottom));
    let mut left_index: usize = 0;
    let mut right_index: usize = 0;
    let ghost first = seq![(polygon.top, Side::TopOrBottom)];
    proof {
        assert(polygon.left@.skip(0) == polygon.left@);
        assert(polygon.right@.skip(0) == polygon.right@);
        assert(points@ == first);
    }
    while left_index < polygon.left.len() || right_index < polygon.right.len()
        invariant
            left_index <= polygon.left.len(),
            right_index <= polygon.right.len(),
            points.len() == 1 + left_index + right_index,
            points@ + merge_chains(
                polygon.left@.skip(left_index as int),
                polygon.right@.skip(right_index as int),
            ) == first + merge_chains(polygon.left@, polygon.right@),
        decreases polygon.left.len() - left_index + polygon.right.len() - right_index,
    {
        let ghost l = polygon.left@.skip(left_index as int);
        let ghost r = polygon.right@.skip(right_index as int);
        let ghost before = points@;
        let take_right = if left_index >= polygon.left.len() {
            true
        } else if right_index >= polygon.right.len() {
            false
        } else {
            polygon.left[left_index] < polygon.right[right_index]
        };
        if take_right {
            points.push((polygon.right[right_index], Side::Right));
            right_index += 1;
            proof {
                assert(r.drop_first() == polygon.right@.skip(right_index as int));
                if l.len() == 0 {
                    lemma_merge_right_only(r);
                    lemma_merge_right_only(r.drop_first());
                    assert(merge_chains(l, r) =~= seq![(r[0], Side::Right)] + merge_chains(
                        l,
                        r.drop_first(),
                    ));
                }
                assert(points@ + merge_chains(l, r.drop_first()) =~= before + merge_chains(l, r));
            }
        } else {
            points.push((polygon.left[left_index], Side::Left));
            left_index += 1;
            proof {
                assert(l.drop_first() == polygon.left@.skip(left_index as int));
                if r.len() == 0 {
                    lemma_merge_left_only(l);
                    lemma_merge_left_only(l.drop_first());
                    assert(merge_chains(l, r) =~= seq![(l[0], Side::Left)] + merge_chains(
                        l.drop_first(),
                        r,
                    ));
                }
                assert(points@ + merge_chains(l.drop_first(), r) =~= before + merge_chains(l, r));
            }
        }
    }
    proof {
        let l = polygon.left@.skip(left_index as int);
        let r = polygon.right@.skip(right_index as int);
        assert(merge_chains(l, r) =~= Seq::empty());
        assert(points@ =~= first + merge_chains(polygon.left@, polygon.right@));
    }
    points.push((polygon.bottom.unwrap(), Side::TopOrBottom));
    points
}

/// With no left chain, the merged list is the right chain.
proof fn lemma_merge_right_only(right: Seq<Point>)
    ensures
        merge_chains(Seq::empty(), right) == right.map_values(|p: Point| (p, Side::Right)),
{
}

/// With no right chain, the merged list is the left chain.
proof fn lemma_merge_left_only(left: Seq<Point>)
    ensures
        merge_chains(left, Seq::empty()) == left.map_values(|p: Point| (p, Side::Left)),
{
    if left.len() == 0 {
        assert(left.map_values(|p: Point| (p, Side::Left)) =~= Seq::<Point>::empty().map_values(
            |p: Point| (p, Side::Right),
        ));
    }
}

/// A point on the other side than the point before it: the fan with the
/// stack, and the new stack.
fn build_triangles_opposite_edge(
    stack: &mut VecDeque<Point>,
    result: &mut Vec<PointTriangle>,
    current_point: Point,
)
    requires
        old(stack).len() >= 1,
    ensures
        final(result)@ == old(result)@ + opposite_triangles(old(stack)@, current_point),
        final(stack)@ == opposite_stack(old(stack)@, current_point),
{
    let ghost start = result@;
    let mut i: usize = 0;
    while i + 1 < stack.len()
        invariant
            stack@ == old(stack)@,
            stack.len() >= 1,
            i + 1 <= stack.len(),
            result@ == start + opposite_triangles(stack@, current_point).take(i as int),
        decreases stack.len() - i,
    {
        result.push(PointTriangle::new(current_point, stack[i], stack[i + 1]));
        i += 1;
        assert(opposite_triangles(stack@, current_point).take(i as int) =~= opposite_triangles(
            stack@,
            current_point,
        ).take(i - 1).push(opposite_triangles(stack@, current_point)[i - 1]));
    }
    assert(opposite_triangles(stack@, current_point).take(i as int) =~= opposite_triangles(
        stack@,
        current_point,
    ));
    let back = stack[stack.len() - 1];
    stack.clear();
    stack.push_back(back);
    stack.push_back(current_point);
    assert(stack@ =~= opposite_stack(old(stack)@, current_point));
}

/// Whether `p` cuts off the corner at `b`.
fn corner_is_cut(a: Point, b: Point, p: Point, side: Side) -> (r: bool)
    ensures
        r == cuts_corner(a, b, p, side),
{
    let o = orientation(a, b, p);
    match side {
        Side::Left => o == Orientation::Clockwise || o == Orientation::Collinear,
        Side::Right => o == Orientation::CounterClockwise,
        Side::TopOrBottom => false,
    }
}

/// A point on the same side as the point before it: the corners that it
/// cuts off, and the new stack.
fn build_triangles_current_edge(
    stack: &mut VecDeque<Point>,
    result: &mut Vec<PointTriangle>,
    current_point: Point,
    expected_orientation: Side,
)
    requires
        old(stack).len() >= 1,
    ensures
        final(result)@ == old(result)@ + same_side_triangles(
            old(stack)@,
            current_point,
            expected_orientation,
        ),
        final(stack)@ == same_side_stack(old(stack)@, current_point, expected_orientation),
{
    let ghost start = result@;
    let ghost all = same_side_triangles(stack@, current_point, expected_orientation);
    let mut i: usize = stack.len() - 1;
    proof {
        lemma_same_side_kept_bounds(stack@, current_point, expected_orientation);
        assert(stack@.take(stack.len() as int) == stack@);
    }
    while i > 0 && corner_is_cut(stack[i - 1], stack[i], current_point, expected_orientation)
        invariant
            stack@ == old(stack)@,
            i < stack.len(),
            all == same_side_triangles(stack@, current_point, expected_orientation),
            same_side_kept(stack@.take(i + 1), current_point, expected_orientation)
                == same_side_kept(stack@, current_point, expected_orientation),
            1 <= same_side_kept(stack@, current_point, expected_orientation) <= i + 1,
            result@ == start + all.take(stack.len() - 1 - i),
        decreases i,
    {
        result.push(PointTriangle::new(current_point, stack[i], stack[i - 1]));
        proof {
            let s = stack@.take(i + 1);
            assert(s.drop_last() == stack@.take(i as int));
            assert(s[s.len() - 2] == stack@[i - 1] && s[s.len() - 1] == stack@[i as int]);
            lemma_same_side_kept_bounds(s.drop_last(), current_point, expected_orientation);
            let k = stack.len() - 1 - i;
            assert(all.take(k + 1) =~= all.take(k).push(all[k]));
        }
        i -= 1;
    }
    proof {
        let s = stack@.take(i + 1);
        if i > 0 {
            assert(s[s.len() - 2] == stack@[i - 1] && s[s.len() - 1] == stack@[i as int]);
        }
        assert(same_side_kept(s, current_point, expected_orientation) == i + 1);
        assert(all.take(stack.len() - 1 - i) =~= all);
    }
    stack.truncate(i + 1);
    stack.push_back(current_point);
    assert(stack@ =~= same_side_stack(old(stack)@, current_point, expected_orientation));
}

/// The merged list holds every point of the two chains, each on a chain.
pub proof fn lemma_merge_chains(left: Seq<Point>, right: Seq<Point>)
    ensures
        merge_chains(left, right).len() == left.len() + right.len(),
        forall|i: int|
            0 <= i < merge_chains(left, right).len() ==> (#[trigger] merge_chains(left, right)[i]).1
                != Side::TopOrBottom,
    decreases left.len() + right.len(),
{
    if left.len() == 0 {
    } else if right.len() == 0 {
    } else if left[0].spec_lt(right[0]) {
        lemma_merge_chains(left, right.drop_first());
    } else {
        lemma_merge_chains(left.drop_first(), right);
    }
}

/// From the `k`-th point on, each point adds as many triangles as it takes
/// points from the stack, less one; so the triangles that are still made and
/// the two points that stay on the stack are as many as the points that are
/// left and those on the stack.
proof fn lemma_triangles_from_len(points: Seq<(Point, Side)>, k: int, stack: Seq<Point>, side: Side)
    requires
        2 <= k <= points.len(),
        stack.len() >= 2,
        side == points[k - 1].1,
        points[points.len() - 1].1 == Side::TopOrBottom,
        forall|i: int| 1 <= i < points.len() - 1 ==> (#[trigger] points[i]).1 != Side::TopOrBottom,
        k == points.len() ==> stack.len() == 2,
    ensures
        triangles_from(points, k, stack, side).len() + 2 == points.len() - k + stack.len(),
    decreases points.len() - k,
{
    if k < points.len() {
        let p = points[k].0;
        if points[k].1 == side {
            assert(k < points.len() - 1) by {
                if k == points.len() - 1 {
                    assert(points[k - 1].1 != Side::TopOrBottom);
                }
            }
            lemma_same_side_kept_bounds(stack, p, side);
            lemma_triangles_from_len(points, k + 1, same_side_stack(stack, p, side), points[k].1);
        } else {
            lemma_triangles_from_len(points, k + 1, opposite_stack(stack, p), points[k].1);
        }
    }
}

/// A monotone polygon is cut into as many triangles as its two chains hold
/// points: two fewer than it has points.
pub proof fn lemma_triangle_count(polygon: MonotonePolygonView)
    requires
        polygon.bottom.is_some(),
    ensures
        spec_triangulate(polygon).len() == polygon.left.len() + polygon.right.len(),
{
    lemma_merge_chains(polygon.left, polygon.right);
    let merged = merge_chains(polygon.left, polygon.right);
    let points = polygon_points(polygon);
    assert(points.len() == merged.len() + 2);
    assert forall|i: int| 1 <= i < points.len() - 1 implies (#[trigger] points[i]).1
        != Side::TopOrBottom by {
        assert(points[i] == merged[i - 1]);
    }
    lemma_triangles_from_len(points, 2, seq![points[0].0, points[1].0], points[1].1);
}

/// Cuts a finished monotone polygon into triangles: the points are taken from
/// the top down; a point on the other side than the one before it makes a fan
/// with the whole stack, a point on the same side cuts off corners for as long
/// as `cuts_corner` holds.
///
/// The triangles are two fewer than the points. They have together at least
/// the area that the boundary encloses. They have exactly that area where the
/// polygon is well turned and where it is turned back, and nowhere else; it is
/// turned back wherever its chains lie apart.
pub fn triangulate_monotone_polygon(polygon: &MonotonePolygon) -> (result: Vec<PointTriangle>)
    requires
        polygon@.bottom.is_some(),
    ensures
        result@ == spec_triangulate(polygon@),
        result.len() == polygon.left.len() + polygon.right.len(),
        crate::area::total_area2(result@) >= crate::area::enclosed_area2(polygon@),
        crate::area::well_turned(polygon@) || crate::area::turned_back(polygon@)
            <==> crate::area::total_area2(result@) == crate::area::enclosed_area2(polygon@),
        crate::funnel::apart(polygon@) ==> crate::area::turned_back(polygon@),
{
    proof {
        lemma_triangle_count(polygon@);
        crate::area::lemma_monotone_area(polygon@);
        if crate::funnel::apart(polygon@) {
            crate::funnel::lemma_apart_area(polygon@);
        }
    }
    let mut result: Vec<PointTriangle> = Vec::new();
    let points = merge_polygon_chains(polygon);
    let mut stack: VecDeque<Point> = VecDeque::new();
    stack.push_back(points[0].0);
    stack.push_back(points[1].0);
    let mut side = points[1].1;
    let mut i: usize = 2;
    assert(stack@ =~= seq![points@[0].0, points@[1].0]);
    while i < points.len()
        invariant
            2 <= i <= points.len(),
            stack.len() >= 1,
            points@ == polygon_points(polygon@),
            result@ + triangles_from(points@, i as int, stack@, side) == spec_triangulate(
                polygon@,
            ),
        decreases points.len() - i,
    {
        let ghost before = result@;
        let ghost old_stack = stack@;
        if side == points[i].1 {
            build_triangles_current_edge(&mut stack, &mut result, points[i].0, side);
            proof {
                lemma_same_side_kept_bounds(old_stack, points@[i as int].0, side);
            }
        } else {
            build_triangles_opposite_edge(&mut stack, &mut result, points[i].0);
        }
        assert(result@ + triangles_from(points@, i + 1, stack@, points@[i as int].1) =~= before
            + triangles_from(points@, i as int, old_stack, side));
        side = points[i].1;
        i += 1;
    }
    assert(result@ + Seq::<PointTriangle>::empty() =~= result@);
    result
}

/// Whether every triangle of the fan that `p` makes with the stack is turned
/// with the boundary.
fn fan_is_well_turned(stack: &VecDeque<Point>, p: Point, side: Side) -> (r: bool)
    ensures
        r == fan_well_turned(stack@, p, side),
{
    if stack.len() < 2 {
        return true;
    }
    let mut i: usize = 0;
    while i < stack.len() - 1
        invariant
            stack.len() >= 2,
            i <= stack.len() - 1,
            forall|j: int| 0 <= j < i ==> toward(side, #[trigger] area2(p, stack@[j], stack@[j + 1])) >= 0,
        decreases stack.len() - i,
    {
        let t = turn_value(p, stack[i], stack[i + 1]);
        proof {
            lemma_area2_turn(p, stack@[i as int], stack@[i + 1]);
        }
        let turned = match side {
            Side::Left => t <= 0,
            _ => t >= 0,
        };
        if !turned {
            assert(toward(side, area2(p, stack@[i as int], stack@[i as int + 1])) < 0);
            return false;
        }
        i += 1;
    }
    true
}

/// Whether the corners that `p` cuts off the stack are all flat.
fn cut_is_flat(stack: &VecDeque<Point>, p: Point, side: Side) -> (r: bool)
    requires
        stack.len() >= 1,
    ensures
        r == (cut_sum(stack@, p, side) == 0),
{
    let mut i: usize = stack.len();
    assert(stack@.take(i as int) =~= stack@);
    while i >= 2 && corner_is_cut(stack[i - 2], stack[i - 1], p, side)
        invariant
            1 <= i <= stack.len(),
            cut_sum(stack@, p, side) == cut_sum(stack@.take(i as int), p, side),
        decreases i,
    {
        let t = turn_value(stack[i - 2], stack[i - 1], p);
        proof {
            let part = stack@.take(i as int);
            assert(part.drop_last() =~= stack@.take(i - 1));
            assert(part[i - 2] == stack@[i - 2] && part[i - 1] == stack@[i - 1]);
            lemma_area2_turn(stack@[i - 2], stack@[i - 1], p);
            lemma_cut(stack@.take(i - 1), p, side, p);
            assert(toward(side, area2(stack@[i - 2], stack@[i - 1], p)) <= 0);
        }
        if t != 0 {
            return false;
        }
        i -= 1;
    }
    true
}

/// Whether the polygon is well turned: whether every fan of its
/// triangulation is turned with the boundary and every corner that is cut off
/// is flat, so that its triangles have exactly the area that the boundary
/// encloses.
pub fn is_well_turned(polygon: &MonotonePolygon) -> (r: bool)
    requires
        polygon@.bottom.is_some(),
    ensures
        r == well_turned(polygon@),
        r <==> crate::area::total_area2(spec_triangulate(polygon@)) == crate::area::polygon_area2(
            polygon@,
        ),
{
    proof {
        crate::area::lemma_monotone_area(polygon@);
    }
    let points = merge_polygon_chains(polygon);
    let mut cut: Vec<PointTriangle> = Vec::new();
    let mut stack: VecDeque<Point> = VecDeque::new();
    stack.push_back(points[0].0);
    stack.push_back(points[1].0);
    let mut side = points[1].1;
    let mut i: usize = 2;
    assert(stack@ =~= seq![points@[0].0, points@[1].0]);
    while i < points.len()
        invariant
            2 <= i <= points.len(),
            stack.len() >= 1,
            points@ == polygon_points(polygon@),
            fans_well_turned(points@, i as int, stack@, side) == well_turned(polygon@),
            well_turned(polygon@) <==> crate::area::total_area2(spec_triangulate(polygon@))
                == crate::area::polygon_area2(polygon@),
        decreases points.len() - i,
    {
        let ghost old_stack = stack@;
        if side == points[i].1 {
            if !cut_is_flat(&stack, points[i].0, side) {
                return false;
            }
            cut.clear();
            build_triangles_current_edge(&mut stack, &mut cut, points[i].0, side);
            proof {
                lemma_same_side_kept_bounds(old_stack, points@[i as int].0, side);
            }
        } else {
            if !fan_is_well_turned(&stack, points[i].0, side) {
                return false;
            }
            cut.clear();
            build_triangles_opposite_edge(&mut stack, &mut cut, points[i].0);
        }
        side = points[i].1;
        i += 1;
    }
    true
}

} // verus!
