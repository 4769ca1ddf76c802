//! What holds of the triangulation of a triangle: the sweep makes one
//! monotone polygon of it, and that polygon is cut into one triangle with the
//! same corners.
use crate::edges::{
    all_edges, lemma_all_edges_one, lemma_odd_in_order, occurrences, occurs_odd, odd_edges,
    odd_in_order, polygon_edges,
};
use crate::face::{all_triangles, is_corner};
use crate::face_triangulation::{Outcome, SweepState};
use crate::monotone_polygon::{
    close_all, lemma_triangle_count, merge_chains, opposite_stack, opposite_triangles,
    polygon_points, spec_triangulate, triangles_from, MonotonePolygonView, Side,
};
use crate::point::{Point, PointTriangle, Segment};
use crate::point_edges::{
    incident_list, segments_at, spec_left_right_edges_bottom, spec_left_right_edges_top,
    spec_point_type, PointEdgeInfo, PointToEdges, PointTypeView,
};
use vstd::prelude::*;

verus! {

/// The list holds the three sides of the triangle `hi`, `mid`, `lo`, each
/// once, and nothing else.
pub open spec fn three_sides(edges: Seq<Segment>, hi: Point, mid: Point, lo: Point) -> bool {
    &&& edges.no_duplicates()
    &&& forall|s: Segment|
        edges.contains(s) <==> s == Segment::spec_new(hi, mid) || s == Segment::spec_new(mid, lo)
            || s == Segment::spec_new(hi, lo)
}

/// The edges that are left of a triangle are its three sides.
pub proof fn lemma_triangle_edges(a: Point, b: Point, c: Point, s: Segment)
    requires
        a != b,
        b != c,
        a != c,
    ensures
        occurs_odd(all_edges(seq![seq![a, b, c]]), s) <==> s == Segment::spec_new(a, b) || s
            == Segment::spec_new(b, c) || s == Segment::spec_new(c, a),
{
    let polygon = seq![a, b, c];
    lemma_all_edges_one(polygon);
    let e = polygon_edges(polygon);
    let ab = Segment::spec_new(a, b);
    let bc = Segment::spec_new(b, c);
    let ca = Segment::spec_new(c, a);
    assert(e =~= seq![ab, bc, ca]);
    let e2 = e.drop_last();
    assert(e2 =~= seq![ab, bc]);
    let e1 = e2.drop_last();
    assert(e1 =~= seq![ab]);
    let e0 = e1.drop_last();
    assert(e0.len() == 0);
    assert(occurrences(e0, s) == 0);
    assert(occurrences(e1, s) == occurrences(e0, s) + if ab == s {
        1nat
    } else {
        0nat
    });
    assert(occurrences(e2, s) == occurrences(e1, s) + if bc == s {
        1nat
    } else {
        0nat
    });
    assert(occurrences(e, s) == occurrences(e2, s) + if ca == s {
        1nat
    } else {
        0nat
    });
    Segment::lemma_new_symmetric(a, b);
    Segment::lemma_new_symmetric(b, c);
    Segment::lemma_new_symmetric(c, a);
    assert(ab != bc && bc != ca && ab != ca);
}

/// The endpoints of the three sides are the three corners, from the highest
/// down.
proof fn lemma_three_points(
    edges: Seq<Segment>,
    point_to_edges: PointToEdges,
    hi: Point,
    mid: Point,
    lo: Point,
)
    requires
        lo.spec_lt(mid),
        mid.spec_lt(hi),
        three_sides(edges, hi, mid, lo),
        point_to_edges.describes(edges),
    ensures
        point_to_edges.points@ == seq![hi, mid, lo],
        point_to_edges.infos.len() == 3,
{
    let points = point_to_edges.points@;
    let s1 = Segment::spec_new(hi, mid);
    let s2 = Segment::spec_new(mid, lo);
    let s3 = Segment::spec_new(hi, lo);
    assert(edges.contains(s1) && edges.contains(s2) && edges.contains(s3));
    let i1 = choose|i: int| 0 <= i < edges.len() && edges[i] == s1;
    let i2 = choose|i: int| 0 <= i < edges.len() && edges[i] == s2;
    assert(edges[i1].has_endpoint(hi) && edges[i1].has_endpoint(mid));
    assert(edges[i2].has_endpoint(lo));
    assert(points.contains(hi) && points.contains(mid) && points.contains(lo));
    let ih = choose|i: int| 0 <= i < points.len() && points[i] == hi;
    let im = choose|i: int| 0 <= i < points.len() && points[i] == mid;
    let il = choose|i: int| 0 <= i < points.len() && points[i] == lo;
    assert forall|j: int| 0 <= j < points.len() implies (#[trigger] points[j]) == hi || points[j]
        == mid || points[j] == lo by {
        let p = points[j];
        assert(points.contains(p));
        let i = choose|i: int| 0 <= i < edges.len() && (#[trigger] edges[i]).has_endpoint(p);
        assert(edges.contains(edges[i]));
    }
    if ih > im {
        assert(points[ih].spec_lt(points[im]));
    }
    if im > il {
        assert(points[im].spec_lt(points[il]));
    }
    assert(ih < im < il);
    if ih != 0 {
        assert(points[ih].spec_lt(points[0]));
    }
    if im != 1 {
        assert(points[im].spec_lt(points[1]));
        assert(points[1].spec_lt(points[0]));
    }
    if il != 2 {
        assert(points[il].spec_lt(points[2]));
        assert(points[2].spec_lt(points[1]));
    }
    if points.len() > 3 {
        assert(points[3].spec_lt(points[2]));
    }
    assert(points =~= seq![hi, mid, lo]);
}

/// Where two edges of a list without repetitions end in a point, the list of
/// the point has two entries: first the one towards the later of the two
/// opposite points.
proof fn lemma_two_entries(
    edges: Seq<Segment>,
    p: Point,
    q1: Point,
    q2: Point,
    infos: Seq<PointEdgeInfo>,
)
    requires
        edges.no_duplicates(),
        forall|i: int| 0 <= i < edges.len() ==> (#[trigger] edges[i]).wf(),
        incident_list(edges, p, infos),
        q2.spec_lt(q1),
        p != q1,
        p != q2,
        edges.contains(Segment::spec_new(p, q1)),
        edges.contains(Segment::spec_new(p, q2)),
        forall|s: Segment|
            edges.contains(s) && s.has_endpoint(p) ==> s == Segment::spec_new(p, q1) || s
                == Segment::spec_new(p, q2),
    ensures
        infos.len() == 2,
        infos[0].opposite_point == q1,
        infos[1].opposite_point == q2,
        segments_at(p, infos) == seq![Segment::spec_new(p, q1), Segment::spec_new(p, q2)],
{
    let s1 = Segment::spec_new(p, q1);
    let s2 = Segment::spec_new(p, q2);
    Segment::lemma_new_symmetric(p, q1);
    Segment::lemma_new_symmetric(p, q2);
    // each entry leads to one of the two points, and tells which edge it names
    assert forall|k: int| 0 <= k < infos.len() implies ((#[trigger] infos[k]).opposite_point == q1
        && edges[infos[k].edge_index as int] == s1) || (infos[k].opposite_point == q2
        && edges[infos[k].edge_index as int] == s2) by {
        let e = edges[infos[k].edge_index as int];
        assert(e.wf());
        assert(edges.contains(e));
    }
    // two entries lead to two points
    assert forall|j: int, k: int| 0 <= j < infos.len() && 0 <= k < infos.len() && j != k implies (
    #[trigger] infos[j]).opposite_point != (#[trigger] infos[k]).opposite_point by {
        crate::point_edges::lemma_incident_distinct(edges, p, infos, j, k);
    }
    let i1 = choose|i: int| 0 <= i < edges.len() && edges[i] == s1;
    let i2 = choose|i: int| 0 <= i < edges.len() && edges[i] == s2;
    assert(edges[i1].has_endpoint(p) && edges[i2].has_endpoint(p));
    let k1 = choose|k: int| 0 <= k < infos.len() && (#[trigger] infos[k]).edge_index == i1;
    let k2 = choose|k: int| 0 <= k < infos.len() && (#[trigger] infos[k]).edge_index == i2;
    assert(infos[k1].opposite_point == q1);
    assert(infos[k2].opposite_point == q2);
    if k2 < k1 {
        assert(infos[k2].spec_before(infos[k1]));
    }
    assert(k1 < k2);
    assert(infos.len() == 2) by {
        if infos.len() > 2 {
            let k = if k1 != 0 && k2 != 0 {
                0int
            } else if k1 != 1 && k2 != 1 {
                1int
            } else {
                2int
            };
            assert(infos[k].opposite_point == q1 || infos[k].opposite_point == q2);
            assert(infos[k].opposite_point != infos[k1].opposite_point);
            assert(infos[k].opposite_point != infos[k2].opposite_point);
        }
    }
    assert(segments_at(p, infos) =~= seq![s1, s2]);
}

/// The corners of a triangle from the highest down.
pub open spec fn sorted_corners(a: Point, b: Point, c: Point) -> (Point, Point, Point) {
    let hi = if b.spec_lt(a) && c.spec_lt(a) {
        a
    } else if c.spec_lt(b) {
        b
    } else {
        c
    };
    let lo = if a.spec_lt(b) && a.spec_lt(c) {
        a
    } else if b.spec_lt(c) {
        b
    } else {
        c
    };
    let mid = if a != hi && a != lo {
        a
    } else if b != hi && b != lo {
        b
    } else {
        c
    };
    (hi, mid, lo)
}

/// The lists of the endpoints of a triangle hold the three corners from the
/// highest down, each with the two sides that end in it.
pub open spec fn triangle_events(point_to_edges: PointToEdges, hi: Point, mid: Point, lo: Point) -> bool {
    &&& lo.spec_lt(mid)
    &&& mid.spec_lt(hi)
    &&& point_to_edges.points@ == seq![hi, mid, lo]
    &&& point_to_edges.infos.len() == 3
    &&& point_to_edges.infos[0]@.len() == 2
    &&& point_to_edges.infos[1]@.len() == 2
    &&& point_to_edges.infos[2]@.len() == 2
    &&& point_to_edges.infos[0]@[0].opposite_point == mid
    &&& point_to_edges.infos[0]@[1].opposite_point == lo
    &&& point_to_edges.infos[1]@[0].opposite_point == hi
    &&& point_to_edges.infos[1]@[1].opposite_point == lo
    &&& point_to_edges.infos[2]@[0].opposite_point == hi
    &&& point_to_edges.infos[2]@[1].opposite_point == mid
    &&& segments_at(hi, point_to_edges.infos[0]@) == seq![
        Segment::spec_new(hi, mid),
        Segment::spec_new(hi, lo),
    ]
    &&& segments_at(mid, point_to_edges.infos[1]@) == seq![
        Segment::spec_new(mid, hi),
        Segment::spec_new(mid, lo),
    ]
    &&& segments_at(lo, point_to_edges.infos[2]@) == seq![
        Segment::spec_new(lo, hi),
        Segment::spec_new(lo, mid),
    ]
}

/// The edges that are left of a triangle have the events of a triangle.
proof fn lemma_triangle_events(
    a: Point,
    b: Point,
    c: Point,
    edges: Seq<Segment>,
    point_to_edges: PointToEdges,
)
    requires
        a != b,
        b != c,
        a != c,
        edges == odd_in_order(all_edges(seq![seq![a, b, c]])),
        point_to_edges.describes(edges),
    ensures
        triangle_events(
            point_to_edges,
            sorted_corners(a, b, c).0,
            sorted_corners(a, b, c).1,
            sorted_corners(a, b, c).2,
        ),
{
    lemma_odd_in_order(all_edges(seq![seq![a, b, c]]));
    let (hi, mid, lo) = sorted_corners(a, b, c);
    let s_hm = Segment::spec_new(hi, mid);
    let s_ml = Segment::spec_new(mid, lo);
    let s_hl = Segment::spec_new(hi, lo);
    Segment::lemma_new_symmetric(hi, mid);
    Segment::lemma_new_symmetric(mid, lo);
    Segment::lemma_new_symmetric(hi, lo);
    Segment::lemma_new_symmetric(a, b);
    Segment::lemma_new_symmetric(b, c);
    Segment::lemma_new_symmetric(c, a);
    assert forall|s: Segment| edges.contains(s) <==> s == s_hm || s == s_ml || s == s_hl by {
        lemma_triangle_edges(a, b, c, s);
        assert(edges.to_set().contains(s) == odd_edges(all_edges(seq![seq![a, b, c]])).contains(s));
    }
    assert(three_sides(edges, hi, mid, lo));
    assert forall|i: int| 0 <= i < edges.len() implies (#[trigger] edges[i]).wf() by {
        assert(edges.contains(edges[i]));
    }
    lemma_three_points(edges, point_to_edges, hi, mid, lo);
    let infos0 = point_to_edges.infos[0]@;
    let infos1 = point_to_edges.infos[1]@;
    let infos2 = point_to_edges.infos[2]@;
    assert(point_to_edges.points[0] == hi && point_to_edges.points[1] == mid
        && point_to_edges.points[2] == lo);
    assert(incident_list(edges, point_to_edges.points[0], infos0));
    assert(incident_list(edges, point_to_edges.points[1], infos1));
    assert(incident_list(edges, point_to_edges.points[2], infos2));
    lemma_two_entries(edges, hi, mid, lo, infos0);
    lemma_two_entries(edges, mid, hi, lo, infos1);
    lemma_two_entries(edges, lo, hi, mid, infos2);
}

/// The state after the highest corner of a triangle: one interval between
/// the two sides that leave the corner, with a polygon that has its top.
spec fn after_top(hi: Point, mid: Point, lo: Point) -> SweepState {
    let (left, right) = spec_left_right_edges_top(
        Segment::spec_new(hi, mid),
        Segment::spec_new(hi, lo),
    );
    SweepState::initial().start(hi, left, right)
}

/// The highest corner of a triangle opens an interval.
proof fn lemma_triangle_top(point_to_edges: PointToEdges, hi: Point, mid: Point, lo: Point)
    requires
        triangle_events(point_to_edges, hi, mid, lo),
    ensures
        SweepState::initial().step(hi, spec_point_type(hi, point_to_edges.infos[0]@))
            == Outcome::ok(after_top(hi, mid, lo)),
{
    let start = SweepState::initial();
    let (left, right) = spec_left_right_edges_top(
        Segment::spec_new(hi, mid),
        Segment::spec_new(hi, lo),
    );
    assert(spec_point_type(hi, point_to_edges.infos[0]@) == PointTypeView::Split(left, right));
    assert(start.interval_with_point(hi).is_none());
    assert(start.split(hi, left, right) == start.start(hi, left, right));
}

/// At the middle corner of a triangle the side from the highest corner
/// turns into the side to the lowest: the interval has these two lower sides
/// and one polygon with the middle corner on a chain.
proof fn lemma_triangle_middle(point_to_edges: PointToEdges, hi: Point, mid: Point, lo: Point)
    requires
        triangle_events(point_to_edges, hi, mid, lo),
    ensures
        ({
            let out = after_top(hi, mid, lo).step(
                mid,
                spec_point_type(mid, point_to_edges.infos[1]@),
            );
            &&& out.error.is_none()
            &&& out.state.polygons.len() == 0
            &&& out.state.intervals.len() == 1
            &&& out.state.intervals[0].polygons.len() == 1
            &&& out.state.intervals[0].polygons[0].bottom.is_none()
            &&& out.state.intervals[0].polygons[0].left.len()
                + out.state.intervals[0].polygons[0].right.len() == 1
            &&& (out.state.intervals[0].polygons[0] == MonotonePolygonView::new(hi).push_right(mid)
                || out.state.intervals[0].polygons[0] == MonotonePolygonView::new(hi).push_left(
                mid,
            ))
            &&& out.state.lines.contains_key(Segment::spec_new(hi, lo))
            &&& out.state.lines.contains_key(Segment::spec_new(mid, lo))
            &&& out.state.lines[Segment::spec_new(hi, lo)] == 0
            &&& out.state.lines[Segment::spec_new(mid, lo)] == 0
        }),
{
    let s_hm = Segment::spec_new(hi, mid);
    let s_ml = Segment::spec_new(mid, lo);
    let s_hl = Segment::spec_new(hi, lo);
    Segment::lemma_new_symmetric(hi, mid);
    Segment::lemma_new_symmetric(mid, lo);
    Segment::lemma_new_symmetric(hi, lo);
    let state1 = after_top(hi, mid, lo);
    let interval1 = state1.intervals[0];
    assert(state1.intervals.len() == 1);
    assert(interval1.polygons =~= seq![MonotonePolygonView::new(hi)]);
    assert(state1.lines.contains_key(s_hm) && state1.lines[s_hm] == 0);
    assert(state1.lines.contains_key(s_hl) && state1.lines[s_hl] == 0);
    assert(spec_point_type(mid, point_to_edges.infos[1]@) == PointTypeView::Normal(s_hm, s_ml));
    let out2 = state1.normal(mid, s_hm, s_ml);
    let replaced = interval1.replace_segment(s_hm, s_ml);
    let lines2 = state1.lines.insert(s_ml, 0).remove(s_hm);
    assert(interval1.has_side(s_hm));
    assert(replaced.has_side(s_ml) && replaced.has_side(s_hl));
    assert(lines2.contains_key(s_ml) && lines2.contains_key(s_hl));
    assert(out2.error.is_none());
    assert(out2.state.lines == lines2);
    assert(out2.state.polygons =~= Seq::<MonotonePolygonView>::empty());
    let polygon2 = out2.state.intervals[0].polygons[0];
    assert(polygon2 == MonotonePolygonView::new(hi).push_right(mid) || polygon2
        == MonotonePolygonView::new(hi).push_left(mid));
}

/// At the lowest corner of a triangle the interval ends, and its polygon is
/// handed out.
proof fn lemma_triangle_bottom(
    point_to_edges: PointToEdges,
    hi: Point,
    mid: Point,
    lo: Point,
    state: SweepState,
)
    requires
        triangle_events(point_to_edges, hi, mid, lo),
        state.polygons.len() == 0,
        state.intervals.len() == 1,
        state.intervals[0].polygons.len() == 1,
        state.intervals[0].polygons[0].left.len() + state.intervals[0].polygons[0].right.len()
            == 1,
        state.lines.contains_key(Segment::spec_new(hi, lo)),
        state.lines.contains_key(Segment::spec_new(mid, lo)),
        state.lines[Segment::spec_new(hi, lo)] == 0,
        state.lines[Segment::spec_new(mid, lo)] == 0,
    ensures
        ({
            let out = state.step(lo, spec_point_type(lo, point_to_edges.infos[2]@));
            &&& out.error.is_none()
            &&& out.state.polygons.len() == 1
            &&& out.state.polygons[0].bottom.is_some()
            &&& out.state.polygons[0].left.len() + out.state.polygons[0].right.len() == 1
            &&& out.state.polygons[0] == state.intervals[0].polygons[0].with_bottom(lo)
        }),
{
    let s_ml = Segment::spec_new(mid, lo);
    let s_hl = Segment::spec_new(hi, lo);
    Segment::lemma_new_symmetric(mid, lo);
    Segment::lemma_new_symmetric(hi, lo);
    let (left, right) = spec_left_right_edges_bottom(s_hl, s_ml);
    assert(spec_point_type(lo, point_to_edges.infos[2]@) == PointTypeView::Merge(left, right));
    let out = state.merge(lo, left, right);
    assert(state.lines.contains_key(left) && state.lines.contains_key(right));
    assert(state.lines[left] == 0 && state.lines[right] == 0);
    assert(out == Outcome::ok(state.end(lo, left, right, 0)));
    let closed = close_all(state.intervals[0].polygons, lo);
    assert(out.state.polygons =~= closed);
    assert(closed[0] == state.intervals[0].polygons[0].with_bottom(lo));
}

/// A polygon with one point on a chain is cut into the one triangle of its
/// bottom, its top and that point.
proof fn lemma_one_chain_point(hi: Point, mid: Point, lo: Point)
    ensures
        spec_triangulate(MonotonePolygonView::new(hi).push_right(mid).with_bottom(lo)) == seq![
            PointTriangle::spec_new(lo, hi, mid),
        ],
        spec_triangulate(MonotonePolygonView::new(hi).push_left(mid).with_bottom(lo)) == seq![
            PointTriangle::spec_new(lo, hi, mid),
        ],
{
    let right = MonotonePolygonView::new(hi).push_right(mid).with_bottom(lo);
    let left = MonotonePolygonView::new(hi).push_left(mid).with_bottom(lo);
    assert(right.left.len() == 0 && right.right =~= seq![mid]);
    assert(left.right.len() == 0 && left.left =~= seq![mid]);
    assert(merge_chains(right.left, right.right) =~= seq![(mid, Side::Right)]);
    assert(merge_chains(left.left, left.right) =~= seq![(mid, Side::Left)]);
    assert(polygon_points(right) =~= seq![
        (hi, Side::TopOrBottom),
        (mid, Side::Right),
        (lo, Side::TopOrBottom),
    ]);
    assert(polygon_points(left) =~= seq![
        (hi, Side::TopOrBottom),
        (mid, Side::Left),
        (lo, Side::TopOrBottom),
    ]);
    lemma_one_side(right, hi, mid, lo, Side::Right);
    lemma_one_side(left, hi, mid, lo, Side::Left);
}

/// The triangles of a polygon whose points are its top, one point on a chain
/// and its bottom.
proof fn lemma_one_side(polygon: MonotonePolygonView, hi: Point, mid: Point, lo: Point, side: Side)
    requires
        side != Side::TopOrBottom,
        polygon_points(polygon) == seq![
            (hi, Side::TopOrBottom),
            (mid, side),
            (lo, Side::TopOrBottom),
        ],
    ensures
        spec_triangulate(polygon) == seq![PointTriangle::spec_new(lo, hi, mid)],
{
    let points = polygon_points(polygon);
    let stack = seq![hi, mid];
    assert(seq![points[0].0, points[1].0] =~= stack);
    let after = opposite_stack(stack, lo);
    assert(triangles_from(points, 3, after, Side::TopOrBottom) =~= Seq::<PointTriangle>::empty());
    assert(opposite_triangles(stack, lo) =~= seq![PointTriangle::spec_new(lo, hi, mid)]);
    assert(triangles_from(points, 2, stack, side) =~= opposite_triangles(stack, lo)
        + triangles_from(points, 3, after, Side::TopOrBottom));
}

/// Triangulating a triangle gives one triangle: the sweep over the three
/// sides of a triangle ends without an error with one monotone polygon, and
/// that polygon is cut into one triangle, whose corners are the corners of the
/// triangle: the lowest, the highest and the one between.
pub proof fn lemma_triangle_gives_one_triangle(
    a: Point,
    b: Point,
    c: Point,
    edges: Seq<Segment>,
    point_to_edges: PointToEdges,
)
    requires
        a != b,
        b != c,
        a != c,
        edges == odd_in_order(all_edges(seq![seq![a, b, c]])),
        point_to_edges.describes(edges),
    ensures
        SweepState::sweep(point_to_edges).error.is_none(),
        SweepState::sweep(point_to_edges).state.polygons.len() == 1,
        all_triangles(SweepState::sweep(point_to_edges).state.polygons).len() == 1,
        all_triangles(SweepState::sweep(point_to_edges).state.polygons)[0]
            == PointTriangle::spec_new(
            sorted_corners(a, b, c).2,
            sorted_corners(a, b, c).0,
            sorted_corners(a, b, c).1,
        ),
        forall|p: Point|
            is_corner(all_triangles(SweepState::sweep(point_to_edges).state.polygons)[0], p) <==> (p
                == a || p == b || p == c),
{
    let (hi, mid, lo) = sorted_corners(a, b, c);
    lemma_triangle_events(a, b, c, edges, point_to_edges);
    lemma_triangle_top(point_to_edges, hi, mid, lo);
    lemma_triangle_middle(point_to_edges, hi, mid, lo);
    let start = SweepState::initial();
    let state1 = after_top(hi, mid, lo);
    let state2 = state1.step(mid, spec_point_type(mid, point_to_edges.infos[1]@)).state;
    lemma_triangle_bottom(point_to_edges, hi, mid, lo, state2);
    let state3 = state2.step(lo, spec_point_type(lo, point_to_edges.infos[2]@)).state;
    // the sweep, event by event
    assert(point_to_edges.points[0] == hi && point_to_edges.points[1] == mid
        && point_to_edges.points[2] == lo);
    assert(state3.sweep_from(point_to_edges, 3) == Outcome::ok(state3));
    assert(state2.sweep_from(point_to_edges, 2).state == state3);
    assert(state2.sweep_from(point_to_edges, 2).error.is_none());
    assert(state1.sweep_from(point_to_edges, 1) == state2.sweep_from(point_to_edges, 2));
    assert(start.sweep_from(point_to_edges, 0) == state1.sweep_from(point_to_edges, 1));
    // the polygon is one triangle
    let polygons = state3.polygons;
    lemma_triangle_count(polygons[0]);
    assert(polygons.drop_last().len() == 0);
    assert(all_triangles(polygons.drop_last()).len() == 0);
    assert(all_triangles(polygons) == all_triangles(polygons.drop_last()) + spec_triangulate(
        polygons.last(),
    ));
    lemma_one_chain_point(hi, mid, lo);
    assert(polygons[0] == MonotonePolygonView::new(hi).push_right(mid).with_bottom(lo)
        || polygons[0] == MonotonePolygonView::new(hi).push_left(mid).with_bottom(lo));
    assert(all_triangles(polygons)[0] == spec_triangulate(polygons[0])[0]);
}

} // verus!
