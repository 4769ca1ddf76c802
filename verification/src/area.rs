//! The area law of the triangulation of a monotone polygon: the triangles
//! have together at least the area that the boundary of the polygon encloses.
//! They have exactly that area in two cases: where every fan is turned with
//! the boundary and every corner that is cut off is flat, and where every fan
//! is turned against the boundary.
//!
//! Areas are doubled, so that they are whole numbers, and signed: positive
//! where the corners run counter-clockwise. The boundary of a polygon is taken
//! to run from the top down the left chain and up the right chain, which is
//! counter-clockwise where the left chain lies at lower `x`.
use crate::monotone_polygon::{
    cuts_corner, lemma_merge_chains, lemma_same_side_kept_bounds, merge_chains,
    opposite_stack, opposite_triangles, polygon_points, same_side_kept, same_side_stack,
    same_side_triangles, spec_triangulate, triangles_from, MonotonePolygonView, Side,
};
use crate::face::{all_triangles, indexed};
use crate::point::{lemma_turn_reverse, turn, Point, PointTriangle, Triangle};
use vstd::prelude::*;

verus! {

/// Twice the area of the triangle `a`, `b`, `c`, positive where the corners
/// run counter-clockwise.
pub open spec fn area2(a: Point, b: Point, c: Point) -> int {
    (b.x - a.x) * (c.y - a.y) - (b.y - a.y) * (c.x - a.x)
}

/// Twice the area of all triangles of a list.
pub open spec fn total_area2(triangles: Seq<PointTriangle>) -> int
    decreases triangles.len(),
{
    if triangles.len() == 0 {
        0
    } else {
        total_area2(triangles.drop_last()) + triangles.last().signed_area2()
    }
}

/// Twice the area that a chain sweeps seen from `o`: of the triangles from `o`
/// to each edge of the chain that begins at `a`.
pub open spec fn chain_area(o: Point, a: Point, chain: Seq<Point>) -> int
    decreases chain.len(),
{
    if chain.len() == 0 {
        0
    } else {
        area2(o, a, chain[0]) + chain_area(o, chain[0], chain.drop_first())
    }
}

/// Twice the area that the boundary of a finished polygon encloses, by the
/// shoelace formula about the bottom: what the left chain from the top sweeps
/// seen from the bottom, less what the right chain sweeps. It is positive
/// where the left chain lies left of the right chain.
pub open spec fn polygon_area2(polygon: MonotonePolygonView) -> int
    recommends
        polygon.bottom.is_some(),
{
    chain_area(polygon.bottom.unwrap(), polygon.top, polygon.left) - chain_area(
        polygon.bottom.unwrap(),
        polygon.top,
        polygon.right,
    )
}

/// An area counted in the sense of the boundary on a side: as it is on the
/// left side, and with the other sign on the right side.
pub open spec fn toward(side: Side, area: int) -> int {
    if side == Side::Left {
        area
    } else {
        -area
    }
}

/// Twice the area that a path sweeps seen from `o`.
pub open spec fn path_area(o: Point, path: Seq<Point>) -> int
    decreases path.len(),
{
    if path.len() < 2 {
        0
    } else {
        path_area(o, path.drop_last()) + area2(o, path[path.len() - 2], path[path.len() - 1])
    }
}

/// Twice the signed area of the fan that `p` makes with the stack.
pub open spec fn fan_sum(stack: Seq<Point>, p: Point) -> int
    decreases stack.len(),
{
    if stack.len() < 2 {
        0
    } else {
        fan_sum(stack.drop_last(), p) + area2(p, stack[stack.len() - 2], stack[stack.len() - 1])
    }
}

/// Every triangle of the fan that `p` makes with a stack on `side` is turned
/// with the boundary: counter-clockwise for a stack on the left, clockwise for
/// one on the right, or flat.
pub open spec fn fan_well_turned(stack: Seq<Point>, p: Point, side: Side) -> bool {
    forall|i: int|
        0 <= i < stack.len() - 1 ==> toward(side, #[trigger] area2(p, stack[i], stack[i + 1])) >= 0
}

/// Twice the signed area of the corners that `p` cuts off a stack on `side`.
pub open spec fn cut_sum(stack: Seq<Point>, p: Point, side: Side) -> int
    decreases stack.len(),
{
    if stack.len() >= 2 && cuts_corner(stack[stack.len() - 2], stack[stack.len() - 1], p, side) {
        area2(stack[stack.len() - 2], stack[stack.len() - 1], p) + cut_sum(
            stack.drop_last(),
            p,
            side,
        )
    } else {
        0
    }
}

/// Twice the area of the triangles made from the `k`-th point on, each counted
/// in the sense of the boundary.
pub open spec fn area_from(points: Seq<(Point, Side)>, k: int, stack: Seq<Point>, side: Side) -> int
    decreases points.len() - k,
{
    if k < 0 || k >= points.len() {
        0
    } else if points[k].1 == side {
        toward(side, cut_sum(stack, points[k].0, side)) + area_from(
            points,
            k + 1,
            same_side_stack(stack, points[k].0, side),
            points[k].1,
        )
    } else {
        toward(side, fan_sum(stack, points[k].0)) + area_from(
            points,
            k + 1,
            opposite_stack(stack, points[k].0),
            points[k].1,
        )
    }
}

/// Every fan that is made from the `k`-th point on is turned with the
/// boundary, and every corner that is cut off from then on is flat.
pub open spec fn fans_well_turned(
    points: Seq<(Point, Side)>,
    k: int,
    stack: Seq<Point>,
    side: Side,
) -> bool
    decreases points.len() - k,
{
    if k < 0 || k >= points.len() {
        true
    } else if points[k].1 == side {
        cut_sum(stack, points[k].0, side) == 0 && fans_well_turned(
            points,
            k + 1,
            same_side_stack(stack, points[k].0, side),
            points[k].1,
        )
    } else {
        fan_well_turned(stack, points[k].0, side) && fans_well_turned(
            points,
            k + 1,
            opposite_stack(stack, points[k].0),
            points[k].1,
        )
    }
}

/// Every fan of the triangulation of the polygon is turned with the boundary,
/// and every corner that is cut off is flat.
pub open spec fn well_turned(polygon: MonotonePolygonView) -> bool
    recommends
        polygon.bottom.is_some(),
{
    let points = polygon_points(polygon);
    fans_well_turned(points, 2, seq![points[0].0, points[1].0], points[1].1)
}

/// Every triangle of the fan that `p` makes with a stack on `side` is turned
/// against the boundary, or flat.
pub open spec fn fan_turned_back(stack: Seq<Point>, p: Point, side: Side) -> bool {
    forall|i: int|
        0 <= i < stack.len() - 1 ==> toward(side, #[trigger] area2(p, stack[i], stack[i + 1])) <= 0
}

/// Every fan that is made from the `k`-th point on is turned against the
/// boundary.
pub open spec fn fans_turned_back(
    points: Seq<(Point, Side)>,
    k: int,
    stack: Seq<Point>,
    side: Side,
) -> bool
    decreases points.len() - k,
{
    if k < 0 || k >= points.len() {
        true
    } else if points[k].1 == side {
        fans_turned_back(points, k + 1, same_side_stack(stack, points[k].0, side), points[k].1)
    } else {
        fan_turned_back(stack, points[k].0, side) && fans_turned_back(
            points,
            k + 1,
            opposite_stack(stack, points[k].0),
            points[k].1,
        )
    }
}

/// Every fan of the triangulation of the polygon is turned against the
/// boundary: the boundary runs clockwise, and each point sees the stack that
/// it makes a fan with from inside.
pub open spec fn turned_back(polygon: MonotonePolygonView) -> bool
    recommends
        polygon.bottom.is_some(),
{
    let points = polygon_points(polygon);
    fans_turned_back(points, 2, seq![points[0].0, points[1].0], points[1].1)
}

/// Twice the area that the boundary of a finished polygon encloses, without
/// its sign.
pub open spec fn enclosed_area2(polygon: MonotonePolygonView) -> int
    recommends
        polygon.bottom.is_some(),
{
    if polygon_area2(polygon) >= 0 {
        polygon_area2(polygon)
    } else {
        -polygon_area2(polygon)
    }
}

/// What is left of the area between the two chains below the points `a` on
/// the left and `b` on the right, seen from `o`: what the points of the merged
/// list still sweep, those on the left counted as they are and those on the
/// right with the other sign.
pub open spec fn rest_area(merged: Seq<(Point, Side)>, o: Point, a: Point, b: Point) -> int
    decreases merged.len(),
{
    if merged.len() == 0 {
        0
    } else if merged[0].1 == Side::Left {
        area2(o, a, merged[0].0) + rest_area(merged.drop_first(), o, merged[0].0, b)
    } else {
        -area2(o, b, merged[0].0) + rest_area(merged.drop_first(), o, a, merged[0].0)
    }
}

/// The area of a triangle is the turn of its corners with the other sign.
pub proof fn lemma_area2_turn(a: Point, b: Point, c: Point)
    ensures
        area2(a, b, c) == -turn(a, b, c),
{
    let (ax, ay, bx, by, cx, cy) = (
        a.x as int,
        a.y as int,
        b.x as int,
        b.y as int,
        c.x as int,
        c.y as int,
    );
    assert((bx - ax) * (cy - ay) - (by - ay) * (cx - ax) == -((by - ay) * (cx - bx) - (cy - by) * (
    bx - ax))) by (nonlinear_arith);
}

/// The area of a triangle keeps its value where the corners are taken in
/// turn, and changes its sign where two corners change places; the areas
/// seen from a point of the triangles over a path of two edges are those over
/// the direct edge and the triangle between.
pub proof fn lemma_area2_rules(o: Point, a: Point, b: Point, c: Point)
    ensures
        area2(a, b, c) == area2(b, c, a),
        area2(o, a, b) == -area2(o, b, a),
        area2(o, a, o) == 0,
        area2(o, o, a) == 0,
        area2(o, a, b) + area2(o, b, c) == area2(o, a, c) + area2(a, b, c),
{
    let (ox, oy, ax, ay) = (o.x as int, o.y as int, a.x as int, a.y as int);
    let (bx, by, cx, cy) = (b.x as int, b.y as int, c.x as int, c.y as int);
    assert((bx - ax) * (cy - ay) - (by - ay) * (cx - ax) == (cx - bx) * (ay - by) - (cy - by) * (ax
        - bx)) by (nonlinear_arith);
    assert((ax - ox) * (by - oy) - (ay - oy) * (bx - ox) == -((bx - ox) * (ay - oy) - (by - oy) * (
    ax - ox))) by (nonlinear_arith);
    assert((ax - ox) * (oy - oy) - (ay - oy) * (ox - ox) == 0) by (nonlinear_arith);
    assert((ox - ox) * (ay - oy) - (oy - oy) * (ax - ox) == 0) by (nonlinear_arith);
    assert((ax - ox) * (by - oy) - (ay - oy) * (bx - ox) + ((bx - ox) * (cy - oy) - (by - oy) * (cx
        - ox)) == (ax - ox) * (cy - oy) - (ay - oy) * (cx - ox) + ((bx - ax) * (cy - ay) - (by
        - ay) * (cx - ax))) by (nonlinear_arith);
}

/// A triangle as it is handed out has the area of its corners without the
/// sign.
pub proof fn lemma_new_area(a: Point, b: Point, c: Point)
    ensures
        PointTriangle::spec_new(a, b, c).signed_area2() >= area2(a, b, c),
        PointTriangle::spec_new(a, b, c).signed_area2() >= -area2(a, b, c),
        PointTriangle::spec_new(a, b, c).signed_area2() == area2(a, b, c)
            || PointTriangle::spec_new(a, b, c).signed_area2() == -area2(a, b, c),
{
    lemma_area2_turn(a, b, c);
    lemma_turn_reverse(a, b, c);
}

/// The area of two lists of triangles is the area of the one and of the
/// other.
pub proof fn lemma_total_add(a: Seq<PointTriangle>, b: Seq<PointTriangle>)
    ensures
        total_area2(a + b) == total_area2(a) + total_area2(b),
    decreases b.len(),
{
    if b.len() == 0 {
        assert(a + b =~= a);
    } else {
        assert((a + b).drop_last() =~= a + b.drop_last());
        lemma_total_add(a, b.drop_last());
    }
}

/// The fan that `p` makes with a stack: its triangles have at least the area
/// of the fan in the sense of the boundary and against it, and exactly that
/// area where the fan is turned with the boundary or against it; and the fan
/// closes the path of the stack seen from any point `o`.
pub proof fn lemma_fan(stack: Seq<Point>, p: Point, side: Side, o: Point)
    requires
        stack.len() >= 1,
    ensures
        total_area2(opposite_triangles(stack, p)) >= toward(side, fan_sum(stack, p)),
        total_area2(opposite_triangles(stack, p)) >= -toward(side, fan_sum(stack, p)),
        fan_well_turned(stack, p, side) <==> total_area2(opposite_triangles(stack, p)) == toward(
            side,
            fan_sum(stack, p),
        ),
        fan_turned_back(stack, p, side) <==> total_area2(opposite_triangles(stack, p)) == -toward(
            side,
            fan_sum(stack, p),
        ),
        fan_sum(stack, p) + area2(o, stack[0], p) == path_area(o, stack) + area2(
            o,
            stack.last(),
            p,
        ),
    decreases stack.len(),
{
    let fan = opposite_triangles(stack, p);
    if stack.len() == 1 {
        assert(fan.len() == 0);
    } else {
        let before = stack.drop_last();
        let a = stack[stack.len() - 2];
        let b = stack[stack.len() - 1];
        lemma_fan(before, p, side, o);
        assert(fan.drop_last() =~= opposite_triangles(before, p));
        assert(fan.last() == PointTriangle::spec_new(p, a, b));
        lemma_new_area(p, a, b);
        lemma_area2_rules(o, a, b, p);
        lemma_area2_rules(o, p, a, b);
        if fan_well_turned(stack, p, side) {
            assert(toward(side, area2(p, stack[stack.len() - 2], stack[stack.len() - 2 + 1])) >= 0);
            assert forall|i: int| 0 <= i < before.len() - 1 implies toward(
                side,
                #[trigger] area2(p, before[i], before[i + 1]),
            ) >= 0 by {
                assert(toward(side, area2(p, stack[i], stack[i + 1])) >= 0);
            }
        }
        if fan_turned_back(stack, p, side) {
            assert(toward(side, area2(p, stack[stack.len() - 2], stack[stack.len() - 2 + 1])) <= 0);
            assert forall|i: int| 0 <= i < before.len() - 1 implies toward(
                side,
                #[trigger] area2(p, before[i], before[i + 1]),
            ) <= 0 by {
                assert(toward(side, area2(p, stack[i], stack[i + 1])) <= 0);
            }
        }
        if total_area2(fan) == toward(side, fan_sum(stack, p)) {
            assert(fan_well_turned(before, p, side));
            assert forall|i: int| 0 <= i < stack.len() - 1 implies toward(
                side,
                #[trigger] area2(p, stack[i], stack[i + 1]),
            ) >= 0 by {
                if i < before.len() - 1 {
                    assert(toward(side, area2(p, before[i], before[i + 1])) >= 0);
                }
            }
        }
        if total_area2(fan) == -toward(side, fan_sum(stack, p)) {
            assert(fan_turned_back(before, p, side));
            assert forall|i: int| 0 <= i < stack.len() - 1 implies toward(
                side,
                #[trigger] area2(p, stack[i], stack[i + 1]),
            ) <= 0 by {
                if i < before.len() - 1 {
                    assert(toward(side, area2(p, before[i], before[i + 1])) <= 0);
                }
            }
        }
    }
}

/// The corners that `p` cuts off a stack are turned against the boundary or
/// flat, and their triangles have exactly the area of the corners; and the
/// new stack with the corners sweeps what the stack with `p` sweeps, seen from
/// any point `o`.
pub proof fn lemma_cut(stack: Seq<Point>, p: Point, side: Side, o: Point)
    requires
        stack.len() >= 1,
    ensures
        total_area2(same_side_triangles(stack, p, side)) == -toward(
            side,
            cut_sum(stack, p, side),
        ),
        toward(side, cut_sum(stack, p, side)) <= 0,
        path_area(o, same_side_stack(stack, p, side)) + cut_sum(stack, p, side) == path_area(
            o,
            stack.push(p),
        ),
        same_side_stack(stack, p, side).len() >= 2,
        same_side_stack(stack, p, side)[0] == stack[0],
        same_side_stack(stack, p, side).last() == p,
    decreases stack.len(),
{
    lemma_same_side_kept_bounds(stack, p, side);
    let cut = same_side_triangles(stack, p, side);
    if stack.len() >= 2 && cuts_corner(stack[stack.len() - 2], stack[stack.len() - 1], p, side) {
        let before = stack.drop_last();
        let a = stack[stack.len() - 2];
        let b = stack[stack.len() - 1];
        lemma_cut(before, p, side, o);
        lemma_same_side_kept_bounds(before, p, side);
        let kept = same_side_kept(stack, p, side) as int;
        assert(stack.take(kept) =~= before.take(kept));
        assert(same_side_stack(stack, p, side) == same_side_stack(before, p, side));
        // the triangles: the corner at the end, then those of the shorter stack
        let first = seq![PointTriangle::spec_new(p, b, a)];
        assert(cut =~= first + same_side_triangles(before, p, side));
        lemma_total_add(first, same_side_triangles(before, p, side));
        assert(first.drop_last().len() == 0);
        assert(total_area2(first) == total_area2(first.drop_last()) + first.last().signed_area2());
        assert(total_area2(first.drop_last()) == 0);
        lemma_new_area(p, b, a);
        lemma_area2_rules(a, p, b, a);
        lemma_area2_rules(p, b, a, p);
        lemma_area2_rules(a, b, p, a);
        lemma_area2_turn(a, b, p);
        assert(area2(p, b, a) == area2(a, p, b));
        assert(area2(a, p, b) == -area2(a, b, p));
        assert(first.last().signed_area2() == -toward(side, area2(a, b, p)));
        // the paths
        lemma_area2_rules(o, a, b, p);
        assert(stack.push(p).drop_last() =~= stack);
        assert(before.push(p).drop_last() =~= before);
        assert(path_area(o, stack.push(p)) == path_area(o, stack) + area2(o, b, p));
        assert(path_area(o, stack) == path_area(o, before) + area2(o, a, b));
        assert(path_area(o, before.push(p)) == path_area(o, before) + area2(o, a, p));
    } else {
        assert(cut.len() == 0);
        assert(stack.take(stack.len() as int) =~= stack);
    }
}

/// The triangles made from the `k`-th point on have at least the area that
/// they have in the sense of the boundary and against it. They have exactly
/// the area in the sense of the boundary where every fan is turned with it and
/// every corner that is cut off is flat, and exactly the area against it where
/// every fan is turned against it.
pub proof fn lemma_total_from(points: Seq<(Point, Side)>, k: int, stack: Seq<Point>, side: Side)
    requires
        0 <= k,
        stack.len() >= 1,
    ensures
        total_area2(triangles_from(points, k, stack, side)) >= area_from(points, k, stack, side),
        total_area2(triangles_from(points, k, stack, side)) >= -area_from(points, k, stack, side),
        fans_well_turned(points, k, stack, side) <==> total_area2(
            triangles_from(points, k, stack, side),
        ) == area_from(points, k, stack, side),
        fans_turned_back(points, k, stack, side) <==> total_area2(
            triangles_from(points, k, stack, side),
        ) == -area_from(points, k, stack, side),
    decreases points.len() - k,
{
    if k < points.len() {
        let p = points[k].0;
        if points[k].1 == side {
            lemma_cut(stack, p, side, p);
            lemma_total_from(points, k + 1, same_side_stack(stack, p, side), points[k].1);
            lemma_total_add(
                same_side_triangles(stack, p, side),
                triangles_from(points, k + 1, same_side_stack(stack, p, side), points[k].1),
            );
        } else {
            lemma_fan(stack, p, side, p);
            lemma_total_from(points, k + 1, opposite_stack(stack, p), points[k].1);
            lemma_total_add(
                opposite_triangles(stack, p),
                triangles_from(points, k + 1, opposite_stack(stack, p), points[k].1),
            );
        }
    }
}

/// The sides of the points of a finished polygon: the last point is the
/// bottom, and the points between the first and the last lie on a chain.
pub open spec fn chain_sides(points: Seq<(Point, Side)>) -> bool {
    &&& points.len() >= 2
    &&& points[points.len() - 1].1 == Side::TopOrBottom
    &&& forall|i: int| 1 <= i < points.len() - 1 ==> (#[trigger] points[i]).1 != Side::TopOrBottom
}

/// The last point of the left chain and the last point of the right chain
/// that a stack on `side` holds: its last point on that side, its first on
/// the other.
pub open spec fn chain_ends(stack: Seq<Point>, side: Side) -> (Point, Point) {
    if side == Side::Left {
        (stack.last(), stack[0])
    } else {
        (stack[0], stack.last())
    }
}

/// The triangles from the `k`-th point on have, in the sense of the boundary,
/// the area of what is left of the polygon: what the stack sweeps and what the
/// points that follow sweep, seen from the bottom.
pub proof fn lemma_area_from(points: Seq<(Point, Side)>, k: int, stack: Seq<Point>, side: Side)
    requires
        chain_sides(points),
        2 <= k <= points.len() - 1,
        stack.len() >= 2,
        side == points[k - 1].1,
    ensures
        area_from(points, k, stack, side) == toward(
            side,
            path_area(points[points.len() - 1].0, stack),
        ) + rest_area(
            points.subrange(k, points.len() - 1),
            points[points.len() - 1].0,
            chain_ends(stack, side).0,
            chain_ends(stack, side).1,
        ),
    decreases points.len() - k,
{
    let n = points.len() as int;
    let o = points[n - 1].0;
    let p = points[k].0;
    let rest = points.subrange(k, n - 1);
    assert(side != Side::TopOrBottom);
    if k == n - 1 {
        assert(rest.len() == 0);
        lemma_fan(stack, p, side, o);
        lemma_area2_rules(o, stack[0], o, o);
        lemma_area2_rules(o, stack.last(), o, o);
        assert(area_from(points, k + 1, opposite_stack(stack, p), points[k].1) == 0);
    } else {
        let following = points.subrange(k + 1, n - 1);
        assert(rest.drop_first() =~= following);
        assert(rest[0] == points[k]);
        assert(points[k].1 != Side::TopOrBottom);
        if points[k].1 == side {
            let next = same_side_stack(stack, p, side);
            lemma_cut(stack, p, side, o);
            lemma_area_from(points, k + 1, next, points[k].1);
            assert(stack.push(p).drop_last() =~= stack);
            assert(path_area(o, stack.push(p)) == path_area(o, stack) + area2(o, stack.last(), p));
        } else {
            let next = opposite_stack(stack, p);
            lemma_fan(stack, p, side, o);
            lemma_area_from(points, k + 1, next, points[k].1);
            assert(next.drop_last() =~= seq![stack.last()]);
            assert(path_area(o, next.drop_last()) == 0);
            assert(path_area(o, next) == path_area(o, next.drop_last()) + area2(
                o,
                stack.last(),
                p,
            ));
        }
    }
}

/// What the points of a chain on the left still sweep, or of one on the
/// right.
proof fn lemma_rest_one_side(chain: Seq<Point>, side: Side, o: Point, a: Point, b: Point)
    requires
        side != Side::TopOrBottom,
    ensures
        rest_area(chain.map_values(|p: Point| (p, Side::Left)), o, a, b) == chain_area(o, a, chain),
        rest_area(chain.map_values(|p: Point| (p, Side::Right)), o, a, b) == -chain_area(
            o,
            b,
            chain,
        ),
    decreases chain.len(),
{
    let left = chain.map_values(|p: Point| (p, Side::Left));
    let right = chain.map_values(|p: Point| (p, Side::Right));
    if chain.len() > 0 {
        assert(left.drop_first() =~= chain.drop_first().map_values(|p: Point| (p, Side::Left)));
        assert(right.drop_first() =~= chain.drop_first().map_values(|p: Point| (p, Side::Right)));
        lemma_rest_one_side(chain.drop_first(), side, o, chain[0], b);
        lemma_rest_one_side(chain.drop_first(), side, o, a, chain[0]);
    }
}

/// What the merged list of two chains sweeps is what the left chain sweeps
/// less what the right chain sweeps.
pub proof fn lemma_rest_merge(left: Seq<Point>, right: Seq<Point>, o: Point, a: Point, b: Point)
    ensures
        rest_area(merge_chains(left, right), o, a, b) == chain_area(o, a, left) - chain_area(
            o,
            b,
            right,
        ),
    decreases left.len() + right.len(),
{
    let merged = merge_chains(left, right);
    if left.len() == 0 {
        lemma_rest_one_side(right, Side::Right, o, a, b);
    } else if right.len() == 0 {
        lemma_rest_one_side(left, Side::Left, o, a, b);
    } else if left[0].spec_lt(right[0]) {
        assert(merged[0] == (right[0], Side::Right));
        assert(merged.drop_first() =~= merge_chains(left, right.drop_first()));
        lemma_rest_merge(left, right.drop_first(), o, a, right[0]);
    } else {
        assert(merged[0] == (left[0], Side::Left));
        assert(merged.drop_first() =~= merge_chains(left.drop_first(), right));
        lemma_rest_merge(left.drop_first(), right, o, left[0], b);
    }
}

/// The area law of the triangulation of a monotone polygon. The triangles
/// into which a finished polygon is cut have together at least the area that
/// its boundary encloses. They have exactly that area where the polygon is
/// well turned and where it is turned back, and nowhere else.
pub proof fn lemma_monotone_area(polygon: MonotonePolygonView)
    requires
        polygon.bottom.is_some(),
    ensures
        total_area2(spec_triangulate(polygon)) >= enclosed_area2(polygon),
        well_turned(polygon) <==> total_area2(spec_triangulate(polygon)) == polygon_area2(polygon),
        turned_back(polygon) <==> total_area2(spec_triangulate(polygon)) == -polygon_area2(polygon),
        well_turned(polygon) || turned_back(polygon) <==> total_area2(spec_triangulate(polygon))
            == enclosed_area2(polygon),
{
    let points = polygon_points(polygon);
    let merged = merge_chains(polygon.left, polygon.right);
    let o = polygon.bottom.unwrap();
    let n = points.len() as int;
    lemma_merge_chains(polygon.left, polygon.right);
    assert(n == merged.len() + 2);
    assert(points[0] == (polygon.top, Side::TopOrBottom));
    assert(points[n - 1] == (o, Side::TopOrBottom));
    assert forall|i: int| 1 <= i < n - 1 implies (#[trigger] points[i]).1 != Side::TopOrBottom by {
        assert(points[i] == merged[i - 1]);
    }
    assert(points.subrange(1, n - 1) =~= merged);
    lemma_rest_merge(polygon.left, polygon.right, o, polygon.top, polygon.top);
    let stack = seq![points[0].0, points[1].0];
    let side = points[1].1;
    lemma_total_from(points, 2, stack, side);
    if merged.len() == 0 {
        assert(triangles_from(points, 2, stack, side).len() == 0);
        assert(area_from(points, 2, stack, side) == 0);
    } else {
        lemma_area_from(points, 2, stack, side);
        assert(merged[0] == points[1]);
        assert(merged.drop_first() =~= points.subrange(2, n - 1));
        assert(stack.drop_last() =~= seq![polygon.top]);
        assert(path_area(o, stack.drop_last()) == 0);
        assert(path_area(o, stack) == path_area(o, stack.drop_last()) + area2(
            o,
            polygon.top,
            points[1].0,
        ));
    }
}

/// Twice the area that the boundaries of the polygons of a list enclose.
pub open spec fn pieces_area2(polygons: Seq<MonotonePolygonView>) -> int
    decreases polygons.len(),
{
    if polygons.len() == 0 {
        0
    } else {
        pieces_area2(polygons.drop_last()) + polygon_area2(polygons.last())
    }
}

/// Every polygon of the list is finished.
pub open spec fn all_closed(polygons: Seq<MonotonePolygonView>) -> bool {
    forall|i: int| 0 <= i < polygons.len() ==> (#[trigger] polygons[i]).bottom.is_some()
}

/// Every polygon of the list is well turned.
pub open spec fn all_well_turned(polygons: Seq<MonotonePolygonView>) -> bool {
    forall|i: int| 0 <= i < polygons.len() ==> well_turned(#[trigger] polygons[i])
}

/// The area law of the triangulation of a list of monotone polygons: the
/// triangles of all polygons have together at least the area that the
/// boundaries of the polygons enclose, and exactly that area where every
/// polygon is well turned, and nowhere else.
pub proof fn lemma_pieces_area(polygons: Seq<MonotonePolygonView>)
    requires
        all_closed(polygons),
    ensures
        total_area2(all_triangles(polygons)) >= pieces_area2(polygons),
        all_well_turned(polygons) <==> total_area2(all_triangles(polygons))
            == pieces_area2(polygons),
    decreases polygons.len(),
{
    if polygons.len() > 0 {
        let before = polygons.drop_last();
        assert(all_closed(before)) by {
            assert forall|i: int| 0 <= i < before.len() implies (#[trigger] before[i]).bottom.is_some() by {
                assert(polygons[i].bottom.is_some());
            }
        }
        lemma_pieces_area(before);
        lemma_monotone_area(polygons.last());
        lemma_total_add(
            all_triangles(before),
            spec_triangulate(polygons.last()),
        );
        if all_well_turned(polygons) {
            assert(well_turned(polygons[polygons.len() - 1]));
            assert forall|i: int| 0 <= i < before.len() implies well_turned(#[trigger] before[i]) by {
                assert(well_turned(polygons[i]));
            }
        }
        if total_area2(all_triangles(polygons)) == pieces_area2(polygons) {
            assert(all_well_turned(before));
            assert forall|i: int| 0 <= i < polygons.len() implies well_turned(
                #[trigger] polygons[i],
            ) by {
                if i < before.len() {
                    assert(well_turned(before[i]));
                }
            }
        }
    }
}

/// Twice the area of the triangles of a face, each given by the places of its
/// corners in the list of vertices.
pub open spec fn face_area2(triangles: Seq<Triangle>, vertices: Seq<Point>) -> int
    decreases triangles.len(),
{
    if triangles.len() == 0 {
        0
    } else {
        face_area2(triangles.drop_last(), vertices) + area2(
            vertices[triangles.last().x as int],
            vertices[triangles.last().y as int],
            vertices[triangles.last().z as int],
        )
    }
}

/// Triangles over a list of vertices have the area of the triangles that they
/// number.
pub proof fn lemma_indexed_area(
    triangles: Seq<Triangle>,
    vertices: Seq<Point>,
    point_triangles: Seq<PointTriangle>,
)
    requires
        triangles.len() == point_triangles.len(),
        forall|i: int|
            0 <= i < triangles.len() ==> {
                &&& vertices[(#[trigger] triangles[i]).x as int] == point_triangles[i].p1
                &&& vertices[triangles[i].y as int] == point_triangles[i].p2
                &&& vertices[triangles[i].z as int] == point_triangles[i].p3
            },
    ensures
        face_area2(triangles, vertices) == total_area2(point_triangles),
    decreases triangles.len(),
{
    if triangles.len() > 0 {
        let n = triangles.len() as int;
        let t = point_triangles[n - 1];
        assert(vertices[triangles[n - 1].x as int] == t.p1);
        assert forall|i: int| 0 <= i < n - 1 implies {
            &&& vertices[(#[trigger] triangles.drop_last()[i]).x as int]
                == point_triangles.drop_last()[i].p1
            &&& vertices[triangles.drop_last()[i].y as int] == point_triangles.drop_last()[i].p2
            &&& vertices[triangles.drop_last()[i].z as int] == point_triangles.drop_last()[i].p3
        } by {
            assert(triangles.drop_last()[i] == triangles[i]);
            assert(vertices[triangles[i].x as int] == point_triangles[i].p1);
        }
        lemma_indexed_area(triangles.drop_last(), vertices, point_triangles.drop_last());
        lemma_area2_turn(t.p1, t.p2, t.p3);
    }
}

/// The area law of a face. The triangles over the vertices of the face of a
/// list of finished polygons have together at least the area that the
/// boundaries of the polygons enclose, and exactly that area where every
/// polygon is well turned, and nowhere else.
pub proof fn lemma_face_area(
    polygons: Seq<MonotonePolygonView>,
    triangles: Seq<Triangle>,
    vertices: Seq<Point>,
)
    requires
        all_closed(polygons),
        indexed(triangles, vertices, all_triangles(polygons)),
    ensures
        face_area2(triangles, vertices) >= pieces_area2(polygons),
        all_well_turned(polygons) <==> face_area2(triangles, vertices) == pieces_area2(polygons),
{
    lemma_indexed_area(triangles, vertices, all_triangles(polygons));
    lemma_pieces_area(polygons);
}

} // verus!
