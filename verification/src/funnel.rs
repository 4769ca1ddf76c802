//! Polygons whose chains lie apart, and why their triangles fill them.
//!
//! The rule by which a point cuts corners off its own chain takes the
//! boundary to run clockwise: from the top down the left chain, the polygon
//! lies on the side of a clockwise turn, which is the side of lower `x`. The
//! chains of a finished polygon lie apart where its points strictly descend
//! and every point of a chain lies on that side of the edge of the other
//! chain that passes it: every point of the left chain at higher `x` than the
//! right chain, every point of the right chain at lower `x` than the left.
//!
//! The stack of the triangulation is then a funnel: a chain that bends into
//! the polygon, closed by one edge of the other chain. The lower end of that
//! edge sees every point of the funnel from inside the polygon, so that every
//! fan is turned against the boundary as `polygon_area2` takes it, and the
//! triangles have exactly the area that the boundary encloses.
//!
//! The polygons that the sweep hands out have their left chain at lower `x`.
//! Their triangles have exactly the area that they enclose where they are
//! well turned, which `is_well_turned` tells.
use crate::area::{
    area2, chain_sides, enclosed_area2, fan_turned_back, fans_turned_back, lemma_area2_turn,
    lemma_monotone_area, polygon_area2, total_area2, toward, turned_back,
};
use crate::monotone_polygon::{
    cuts_corner, lemma_merge_chains, lemma_same_side_kept_bounds, merge_chains,
    merge_polygon_chains, opposite_stack, polygon_points, same_side_kept, same_side_stack,
    spec_triangulate, MonotonePolygon, MonotonePolygonView, Side,
};
use crate::point::{spec_orientation, turn, turn_value, Orientation, Point};
use vstd::prelude::*;

verus! {

/// Each point comes strictly before the points that precede it in the list.
pub open spec fn descending(points: Seq<(Point, Side)>) -> bool {
    forall|i: int, j: int|
        0 <= i < j < points.len() ==> (#[trigger] points[j]).0.spec_lt((#[trigger] points[i]).0)
}

/// Every point strictly between the places `j` and `k` lies on `side`.
pub open spec fn run_on(points: Seq<(Point, Side)>, j: int, k: int, side: Side) -> bool {
    forall|m: int| j < m < k ==> (#[trigger] points[m]).1 == side
}

/// Every point lies on the side of the edge of the other chain that passes it
/// on which the cut rule takes the polygon to lie, or on that edge: where the
/// points `j` and `k` are neighbours on one chain, and the points between them
/// lie on the other, each of these makes with the edge from `j` to `k` a
/// triangle that is turned against the boundary or flat. The top and the
/// bottom belong to both chains.
pub open spec fn chains_apart(points: Seq<(Point, Side)>) -> bool {
    forall|j: int, i: int, k: int|
        0 <= j < i < k < points.len() && points[j].1 != points[i].1 && points[k].1 != points[i].1
            && run_on(points, j, k, points[i].1) ==> toward(
            points[i].1,
            #[trigger] area2(points[k].0, points[j].0, points[i].0),
        ) <= 0
}

/// The chains of a finished polygon lie apart: its points strictly descend
/// from the top to the bottom, and each lies beside the other chain on the
/// side on which the cut rule takes the polygon to lie.
pub open spec fn apart(polygon: MonotonePolygonView) -> bool
    recommends
        polygon.bottom.is_some(),
{
    descending(polygon_points(polygon)) && chains_apart(polygon_points(polygon))
}

/// The stack before the `k`-th point is a funnel: its points stand in the
/// list at the places `at`, the newest just before `k`; all but the oldest
/// lie on `side`, as do all points of the list after the oldest; and no
/// corner of the stack would be cut off by the point that follows it.
pub open spec fn funnel(
    points: Seq<(Point, Side)>,
    k: int,
    stack: Seq<Point>,
    at: Seq<int>,
    side: Side,
) -> bool {
    &&& stack.len() >= 2
    &&& at.len() == stack.len()
    &&& 0 <= at[0]
    &&& at[at.len() - 1] == k - 1
    &&& k <= points.len()
    &&& forall|i: int, j: int| 0 <= i < j < at.len() ==> #[trigger] at[i] < #[trigger] at[j]
    &&& forall|i: int| 0 <= i < at.len() ==> #[trigger] stack[i] == points[at[i]].0
    &&& points[at[0]].1 != side
    &&& run_on(points, at[0], k, side)
    &&& forall|i: int|
        1 <= i < stack.len() - 1 ==> !cuts_corner(
            stack[i - 1],
            #[trigger] stack[i],
            stack[i + 1],
            side,
        )
}

/// Where the corner at `b` of a descending chain `a`, `b`, `c` is not cut off,
/// a lower point that sees the edge from `a` to `b` from inside sees the edge
/// from `b` to `c` from inside too.
pub proof fn lemma_funnel_step(a: Point, b: Point, c: Point, p: Point, side: Side)
    requires
        b.spec_lt(a),
        c.spec_lt(b),
        p.spec_lt(c),
        side == Side::Left || side == Side::Right,
        !cuts_corner(a, b, c, side),
        toward(side, area2(p, a, b)) <= 0,
    ensures
        toward(side, area2(p, b, c)) <= 0,
{
    let (ux, uy) = (b.x - a.x, b.y - a.y);
    let (vx, vy) = (c.x - b.x, c.y - b.y);
    let (wx, wy) = (p.x - b.x, p.y - b.y);
    let cuv = ux * vy - uy * vx;
    let cuw = ux * wy - uy * wx;
    let cvw = vx * wy - vy * wx;
    let (ax, ay, bx, by, cx, cy, px, py) = (
        a.x as int,
        a.y as int,
        b.x as int,
        b.y as int,
        c.x as int,
        c.y as int,
        p.x as int,
        p.y as int,
    );
    assert(area2(a, b, c) == cuv) by {
        assert((bx - ax) * (cy - ay) - (by - ay) * (cx - ax) == (bx - ax) * (cy - by) - (by - ay)
            * (cx - bx)) by (nonlinear_arith);
    }
    assert(area2(p, a, b) == cuw) by {
        assert((ax - px) * (by - py) - (ay - py) * (bx - px) == (bx - ax) * (py - by) - (by - ay)
            * (px - bx)) by (nonlinear_arith);
    }
    assert(area2(p, b, c) == cvw) by {
        assert((bx - px) * (cy - py) - (by - py) * (cx - px) == (cx - bx) * (py - by) - (cy - by)
            * (px - bx)) by (nonlinear_arith);
    }
    assert(turn(a, b, c) == -cuv) by {
        assert((by - ay) * (cx - bx) - (cy - by) * (bx - ax) == -((bx - ax) * (cy - by) - (by - ay)
            * (cx - bx))) by (nonlinear_arith);
    }
    assert(cvw * uy == cuw * vy - cuv * wy) by (nonlinear_arith)
        requires
            cuv == ux * vy - uy * vx,
            cuw == ux * wy - uy * wx,
            cvw == vx * wy - vy * wx,
    ;
    assert(uy <= 0 && vy <= 0 && wy <= 0 && wy <= vy);
    if side == Side::Left {
        assert(spec_orientation(a, b, c) == Orientation::CounterClockwise);
        assert(cuv > 0 && cuw <= 0);
        if uy == 0 {
            assert(ux < 0);
            assert(cuv == ux * vy) by (nonlinear_arith)
                requires
                    cuv == ux * vy - uy * vx,
                    uy == 0,
            ;
            assert(vy < 0) by (nonlinear_arith)
                requires
                    ux * vy > 0,
                    ux < 0,
                    vy <= 0,
            ;
            assert(cuw == ux * wy) by (nonlinear_arith)
                requires
                    cuw == ux * wy - uy * wx,
                    uy == 0,
            ;
            assert(ux * wy > 0) by (nonlinear_arith)
                requires
                    ux < 0,
                    wy < 0,
            ;
        } else {
            assert(cuw * vy >= 0) by (nonlinear_arith)
                requires
                    cuw <= 0,
                    vy <= 0,
            ;
            assert(cuv * wy <= 0) by (nonlinear_arith)
                requires
                    cuv > 0,
                    wy <= 0,
            ;
            assert(cvw <= 0) by (nonlinear_arith)
                requires
                    cvw * uy >= 0,
                    uy < 0,
            ;
        }
    } else {
        assert(spec_orientation(a, b, c) != Orientation::CounterClockwise);
        assert(cuv <= 0 && cuw >= 0);
        if uy == 0 {
            assert(ux < 0);
            assert(cuv == ux * vy) by (nonlinear_arith)
                requires
                    cuv == ux * vy - uy * vx,
                    uy == 0,
            ;
            assert(vy == 0) by (nonlinear_arith)
                requires
                    ux * vy <= 0,
                    ux < 0,
                    vy <= 0,
            ;
            assert(vx < 0);
            assert(cvw == vx * wy) by (nonlinear_arith)
                requires
                    cvw == vx * wy - vy * wx,
                    vy == 0,
            ;
            assert(vx * wy >= 0) by (nonlinear_arith)
                requires
                    vx < 0,
                    wy <= 0,
            ;
        } else {
            assert(cuw * vy <= 0) by (nonlinear_arith)
                requires
                    cuw >= 0,
                    vy <= 0,
            ;
            assert(cuv * wy >= 0) by (nonlinear_arith)
                requires
                    cuv <= 0,
                    wy <= 0,
            ;
            assert(cvw >= 0) by (nonlinear_arith)
                requires
                    cvw * uy <= 0,
                    uy < 0,
            ;
        }
    }
}

/// Where more than one point of the stack stays below a point on the same
/// side, that point does not cut off the corner at the newest that stays.
pub proof fn lemma_kept_corner(stack: Seq<Point>, p: Point, side: Side)
    requires
        stack.len() >= 1,
    ensures
        same_side_kept(stack, p, side) >= 2 ==> !cuts_corner(
            stack[same_side_kept(stack, p, side) - 2],
            stack[same_side_kept(stack, p, side) - 1],
            p,
            side,
        ),
    decreases stack.len(),
{
    if stack.len() >= 2 && cuts_corner(stack[stack.len() - 2], stack[stack.len() - 1], p, side) {
        let rest = stack.drop_last();
        lemma_kept_corner(rest, p, side);
        lemma_same_side_kept_bounds(rest, p, side);
        let kept = same_side_kept(rest, p, side) as int;
        assert(same_side_kept(stack, p, side) == kept);
        if kept >= 2 {
            assert(rest[kept - 2] == stack[kept - 2]);
            assert(rest[kept - 1] == stack[kept - 1]);
        }
    }
}

/// The point that follows a funnel on the other side sees each edge of the
/// funnel from inside the polygon.
pub proof fn lemma_funnel_fan(
    points: Seq<(Point, Side)>,
    k: int,
    stack: Seq<Point>,
    at: Seq<int>,
    side: Side,
    i: int,
)
    requires
        descending(points),
        chains_apart(points),
        funnel(points, k, stack, at, side),
        k < points.len(),
        side == Side::Left || side == Side::Right,
        points[k].1 != side,
        0 <= i < stack.len() - 1,
    ensures
        toward(side, area2(points[k].0, stack[i], stack[i + 1])) <= 0,
    decreases i,
{
    let p = points[k].0;
    assert(at[0] < at[1]);
    assert(at[i] < at[i + 1]);
    assert(at[i + 1] <= at[at.len() - 1]) by {
        if i + 1 < at.len() - 1 {
            assert(at[i + 1] < at[at.len() - 1]);
        }
    }
    assert(stack[i] == points[at[i]].0);
    assert(stack[i + 1] == points[at[i + 1]].0);
    if i == 0 {
        assert(points[at[1]].1 == side);
        assert(toward(points[at[1]].1, area2(points[k].0, points[at[0]].0, points[at[1]].0)) <= 0);
    } else {
        lemma_funnel_fan(points, k, stack, at, side, i - 1);
        assert(at[i - 1] < at[i]);
        assert(stack[i - 1] == points[at[i - 1]].0);
        assert(points[at[i]].0.spec_lt(points[at[i - 1]].0));
        assert(points[at[i + 1]].0.spec_lt(points[at[i]].0));
        assert(points[k].0.spec_lt(points[at[i + 1]].0));
        assert(!cuts_corner(stack[i - 1], stack[i], stack[i + 1], side));
        lemma_funnel_step(stack[i - 1], stack[i], stack[i + 1], p, side);
    }
}

/// A point on the same side leaves a funnel behind.
pub proof fn lemma_funnel_same(
    points: Seq<(Point, Side)>,
    k: int,
    stack: Seq<Point>,
    at: Seq<int>,
    side: Side,
)
    requires
        funnel(points, k, stack, at, side),
        k < points.len(),
        points[k].1 == side,
    ensures
        funnel(
            points,
            k + 1,
            same_side_stack(stack, points[k].0, side),
            at.take(same_side_kept(stack, points[k].0, side) as int).push(k),
            side,
        ),
{
    let p = points[k].0;
    let kept = same_side_kept(stack, p, side) as int;
    lemma_same_side_kept_bounds(stack, p, side);
    lemma_kept_corner(stack, p, side);
    let next = same_side_stack(stack, p, side);
    let next_at = at.take(kept).push(k);
    assert(next.len() == kept + 1);
    assert(next_at.len() == kept + 1);
    assert(next_at[0] == at[0]);
    assert(next_at[next_at.len() - 1] == k);
    assert forall|i: int, j: int| 0 <= i < j < next_at.len() implies #[trigger] next_at[i]
        < #[trigger] next_at[j] by {
        if j < kept {
            assert(at[i] < at[j]);
        } else {
            assert(next_at[i] == at[i]);
            if i < at.len() - 1 {
                assert(at[i] < at[at.len() - 1]);
            }
        }
    }
    assert forall|i: int| 0 <= i < next_at.len() implies #[trigger] next[i]
        == points[next_at[i]].0 by {
        if i < kept {
            assert(next[i] == stack[i]);
            assert(stack[i] == points[at[i]].0);
        }
    }
    assert forall|i: int| 1 <= i < next.len() - 1 implies !cuts_corner(
        next[i - 1],
        #[trigger] next[i],
        next[i + 1],
        side,
    ) by {
        assert(next[i - 1] == stack[i - 1]);
        assert(next[i] == stack[i]);
        if i + 1 < kept {
            assert(next[i + 1] == stack[i + 1]);
            assert(!cuts_corner(stack[i - 1], stack[i], stack[i + 1], side));
        } else {
            assert(next[i + 1] == p);
        }
    }
    assert(run_on(points, next_at[0], k + 1, side)) by {
        assert forall|m: int| at[0] < m < k + 1 implies (#[trigger] points[m]).1 == side by {
            if m < k {
                assert(points[m].1 == side);
            }
        }
    }
}

/// A point on the other side leaves a funnel behind: the newest point of the
/// stack and the point itself.
pub proof fn lemma_funnel_opposite(
    points: Seq<(Point, Side)>,
    k: int,
    stack: Seq<Point>,
    at: Seq<int>,
    side: Side,
)
    requires
        funnel(points, k, stack, at, side),
        k < points.len(),
        points[k].1 != side,
    ensures
        funnel(points, k + 1, opposite_stack(stack, points[k].0), seq![k - 1, k], points[k].1),
{
    let next = opposite_stack(stack, points[k].0);
    let next_at = seq![k - 1, k];
    assert(at[0] < at[at.len() - 1]);
    assert(points[k - 1].1 == side);
    assert(stack[stack.len() - 1] == points[at[at.len() - 1]].0);
    assert(next[0] == points[k - 1].0);
    assert(next[1] == points[k].0);
    assert(run_on(points, k - 1, k + 1, points[k].1));
}

/// From a funnel on, every fan is turned against the boundary.
pub proof fn lemma_funnel_fans(
    points: Seq<(Point, Side)>,
    k: int,
    stack: Seq<Point>,
    at: Seq<int>,
    side: Side,
)
    requires
        chain_sides(points),
        descending(points),
        chains_apart(points),
        2 <= k <= points.len(),
        funnel(points, k, stack, at, side),
    ensures
        fans_turned_back(points, k, stack, side),
    decreases points.len() - k,
{
    if k < points.len() {
        let p = points[k].0;
        assert(points[k - 1].1 == side) by {
            assert(at[0] < at[at.len() - 1]);
        }
        assert(side == Side::Left || side == Side::Right);
        if points[k].1 == side {
            let kept = same_side_kept(stack, p, side) as int;
            lemma_funnel_same(points, k, stack, at, side);
            lemma_funnel_fans(
                points,
                k + 1,
                same_side_stack(stack, p, side),
                at.take(kept).push(k),
                side,
            );
        } else {
            assert forall|i: int| 0 <= i < stack.len() - 1 implies toward(
                side,
                #[trigger] area2(p, stack[i], stack[i + 1]),
            ) <= 0 by {
                lemma_funnel_fan(points, k, stack, at, side, i);
            }
            assert(fan_turned_back(stack, p, side));
            lemma_funnel_opposite(points, k, stack, at, side);
            lemma_funnel_fans(points, k + 1, opposite_stack(stack, p), seq![k - 1, k], points[k].1);
        }
    }
}

/// The sides of the points of a finished polygon: the first and the last are
/// the top and the bottom, and the points between them lie on a chain.
pub proof fn lemma_polygon_sides(polygon: MonotonePolygonView)
    requires
        polygon.bottom.is_some(),
    ensures
        chain_sides(polygon_points(polygon)),
        polygon_points(polygon)[0].1 == Side::TopOrBottom,
{
    let points = polygon_points(polygon);
    let merged = merge_chains(polygon.left, polygon.right);
    let n = points.len() as int;
    lemma_merge_chains(polygon.left, polygon.right);
    assert(n == merged.len() + 2);
    assert(points[0] == (polygon.top, Side::TopOrBottom));
    assert(points[n - 1] == (polygon.bottom.unwrap(), Side::TopOrBottom));
    assert forall|i: int| 1 <= i < n - 1 implies (#[trigger] points[i]).1 != Side::TopOrBottom by {
        assert(points[i] == merged[i - 1]);
    }
}

/// A polygon whose chains lie apart is turned back, and its triangles have
/// together exactly the area that its boundary encloses.
pub proof fn lemma_apart_area(polygon: MonotonePolygonView)
    requires
        polygon.bottom.is_some(),
        apart(polygon),
    ensures
        turned_back(polygon),
        total_area2(spec_triangulate(polygon)) == enclosed_area2(polygon),
        total_area2(spec_triangulate(polygon)) == -polygon_area2(polygon),
{
    let points = polygon_points(polygon);
    lemma_polygon_sides(polygon);
    let stack = seq![points[0].0, points[1].0];
    let at = seq![0int, 1int];
    let side = points[1].1;
    if points.len() > 2 {
        assert(side != Side::TopOrBottom);
        assert(funnel(points, 2, stack, at, side));
        lemma_funnel_fans(points, 2, stack, at, side);
    }
    lemma_monotone_area(polygon);
}

/// The `i`-th point lies on the side of the edge of the other chain that
/// passes it on which the cut rule takes the polygon to lie, or on that edge.
pub open spec fn apart_at(points: Seq<(Point, Side)>, i: int) -> bool {
    forall|j: int, k: int|
        0 <= j < i < k < points.len() && points[j].1 != points[i].1 && points[k].1 != points[i].1
            && run_on(points, j, k, points[i].1) ==> toward(
            points[i].1,
            #[trigger] area2(points[k].0, points[j].0, points[i].0),
        ) <= 0
}

/// Whether the points strictly descend.
fn strictly_descends(points: &Vec<(Point, Side)>) -> (r: bool)
    ensures
        r == descending(points@),
{
    if points.len() == 0 {
        return true;
    }
    let mut i: usize = 1;
    while i < points.len()
        invariant
            1 <= i <= points.len(),
            forall|a: int, b: int|
                0 <= a < b < i ==> (#[trigger] points@[b]).0.spec_lt((#[trigger] points@[a]).0),
        decreases points.len() - i,
    {
        if !(points[i].0 < points[i - 1].0) {
            assert(!points@[i as int].0.spec_lt(points@[i - 1].0));
            return false;
        }
        proof {
            assert forall|a: int| 0 <= a < i implies points@[i as int].0.spec_lt(
                (#[trigger] points@[a]).0,
            ) by {
                if a < i - 1 {
                    assert(points@[i - 1].0.spec_lt(points@[a].0));
                }
            }
        }
        i += 1;
    }
    true
}

/// Whether the `i`-th point lies on the side of the edge of the other chain
/// that passes it on which the cut rule takes the polygon to lie.
fn passes_apart(points: &Vec<(Point, Side)>, i: usize) -> (r: bool)
    requires
        chain_sides(points@),
        points@[0].1 == Side::TopOrBottom,
        1 <= i < points.len() - 1,
    ensures
        r == apart_at(points@, i as int),
{
    let side = points[i].1;
    assert(side != Side::TopOrBottom);
    let mut j: usize = i - 1;
    while points[j].1 == side
        invariant
            j < i,
            i < points.len(),
            points@[0].1 != side,
            run_on(points@, j as int, i as int, side),
        decreases j,
    {
        j -= 1;
    }
    let mut k: usize = i + 1;
    while points[k].1 == side
        invariant
            i < k < points.len(),
            points@[points.len() - 1].1 != side,
            run_on(points@, i as int, k as int, side),
        decreases points.len() - k,
    {
        k += 1;
    }
    let t = turn_value(points[k].0, points[j].0, points[i].0);
    let r = match side {
        Side::Left => t >= 0,
        _ => t <= 0,
    };
    proof {
        lemma_area2_turn(points@[k as int].0, points@[j as int].0, points@[i as int].0);
        assert(run_on(points@, j as int, k as int, side));
        if r {
            assert forall|a: int, b: int|
                0 <= a < i < b < points.len() && points@[a].1 != points@[i as int].1 && points@[b].1
                    != points@[i as int].1 && run_on(
                    points@,
                    a,
                    b,
                    points@[i as int].1,
                ) implies toward(
                points@[i as int].1,
                #[trigger] area2(points@[b].0, points@[a].0, points@[i as int].0),
            ) <= 0 by {
                if a < j {
                    assert(points@[j as int].1 == side);
                } else if a > j {
                    assert(points@[a].1 == side);
                }
                if b > k {
                    assert(points@[k as int].1 == side);
                } else if b < k {
                    assert(points@[b].1 == side);
                }
            }
        } else {
            assert(toward(
                points@[i as int].1,
                area2(points@[k as int].0, points@[j as int].0, points@[i as int].0),
            ) > 0);
        }
    }
    r
}

/// Whether the chains of the polygon lie apart, so that its triangles have
/// exactly the area that its boundary encloses.
pub fn lies_apart(polygon: &MonotonePolygon) -> (r: bool)
    requires
        polygon@.bottom.is_some(),
    ensures
        r == apart(polygon@),
        r ==> total_area2(spec_triangulate(polygon@)) == enclosed_area2(polygon@),
{
    let points = merge_polygon_chains(polygon);
    proof {
        lemma_polygon_sides(polygon@);
        if apart(polygon@) {
            lemma_apart_area(polygon@);
        }
    }
    if !strictly_descends(&points) {
        return false;
    }
    let mut i: usize = 1;
    while i < points.len() - 1
        invariant
            1 <= i <= points.len() - 1,
            points@ == polygon_points(polygon@),
            chain_sides(points@),
            points@[0].1 == Side::TopOrBottom,
            forall|m: int| 1 <= m < i ==> apart_at(points@, m),
        decreases points.len() - i,
    {
        if !passes_apart(&points, i) {
            assert(!chains_apart(points@));
            return false;
        }
        i += 1;
    }
    proof {
        assert forall|j: int, m: int, k: int|
            0 <= j < m < k < points@.len() && points@[j].1 != points@[m].1 && points@[k].1
                != points@[m].1 && run_on(points@, j, k, points@[m].1) implies toward(
            points@[m].1,
            #[trigger] area2(points@[k].0, points@[j].0, points@[m].0),
        ) <= 0 by {
            assert(apart_at(points@, m));
        }
    }
    true
}

} // verus!
