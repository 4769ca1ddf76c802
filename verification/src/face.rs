//! The triangulation of the region that a set of edges bounds: the sweep into
//! monotone polygons, their triangulation, and the numbering of the corners.
use crate::edges::{all_edges, calc_dedup_edges, no_repeated_point, odd_in_order, point_lists};
use crate::face_triangulation::{
    all_finished, sweeping_line_triangulation, SweepError, SweepState,
};
use crate::monotone_polygon::{
    spec_triangulate, triangulate_monotone_polygon, views, MonotonePolygon, MonotonePolygonView,
};
use crate::point::{Point, PointTriangle, Segment, Triangle};
use crate::point_edges::PointToEdges;
use std::collections::HashMap;
use vstd::prelude::*;

verus! {

broadcast use vstd::std_specs::hash::group_hash_axioms;

/// The triangles of all polygons of a list, one polygon after the other.
pub open spec fn all_triangles(polygons: Seq<MonotonePolygonView>) -> Seq<PointTriangle>
    decreases polygons.len(),
{
    if polygons.len() == 0 {
        Seq::empty()
    } else {
        all_triangles(polygons.drop_last()) + spec_triangulate(polygons.last())
    }
}

/// The corners of a list of triangles, in the order of the triangles.
pub open spec fn corners(triangles: Seq<PointTriangle>) -> Seq<Point> {
    Seq::new(
        3 * triangles.len(),
        |k: int|
            if k % 3 == 0 {
                triangles[k / 3].p1
            } else if k % 3 == 1 {
                triangles[k / 3].p2
            } else {
                triangles[k / 3].p3
            },
    )
}

/// The points of a list, each once, in the order in which they first occur.
pub open spec fn first_occurrences(points: Seq<Point>) -> Seq<Point>
    decreases points.len(),
{
    if points.len() == 0 {
        Seq::empty()
    } else if first_occurrences(points.drop_last()).contains(points.last()) {
        first_occurrences(points.drop_last())
    } else {
        first_occurrences(points.drop_last()).push(points.last())
    }
}

/// The list of triangles over the vertices is the list of triangles given by
/// their corners: each vertex occurs once and is a corner, and each triangle
/// names the places of its three corners.
pub open spec fn indexed(
    triangles: Seq<Triangle>,
    vertices: Seq<Point>,
    point_triangles: Seq<PointTriangle>,
) -> bool {
    &&& vertices.no_duplicates()
    &&& forall|p: Point| vertices.contains(p) <==> corners(point_triangles).contains(p)
    &&& triangles.len() == point_triangles.len()
    &&& forall|i: int|
        0 <= i < triangles.len() ==> {
            &&& (#[trigger] triangles[i]).x < vertices.len()
            &&& triangles[i].y < vertices.len()
            &&& triangles[i].z < vertices.len()
            &&& vertices[triangles[i].x as int] == point_triangles[i].p1
            &&& vertices[triangles[i].y as int] == point_triangles[i].p2
            &&& vertices[triangles[i].z as int] == point_triangles[i].p3
        }
}

/// The triangles of all polygons of a list.
pub fn triangulate_polygons(polygons: &Vec<MonotonePolygon>) -> (r: Vec<PointTriangle>)
    requires
        all_finished(polygons@),
    ensures
        r@ == all_triangles(views(polygons@)),
{
    let mut r: Vec<PointTriangle> = Vec::new();
    let mut k: usize = 0;
    assert(views(polygons@).take(0) =~= Seq::empty());
    while k < polygons.len()
        invariant
            k <= polygons.len(),
            all_finished(polygons@),
            r@ == all_triangles(views(polygons@).take(k as int)),
        decreases polygons.len() - k,
    {
        let mut part = triangulate_monotone_polygon(&polygons[k]);
        r.append(&mut part);
        k += 1;
        proof {
            let all = views(polygons@);
            assert(all.take(k as int).drop_last() =~= all.take(k - 1));
            assert(all.take(k as int).last() == polygons@[k - 1]@);
        }
    }
    assert(views(polygons@).take(k as int) =~= views(polygons@));
    r
}

/// Whether every polygon of the list is well turned, so that the triangles of
/// all polygons have together exactly the area that the boundaries of the
/// polygons enclose.
pub fn all_pieces_well_turned(polygons: &Vec<MonotonePolygon>) -> (r: bool)
    requires
        all_finished(polygons@),
    ensures
        r == crate::area::all_well_turned(views(polygons@)),
        r <==> crate::area::total_area2(all_triangles(views(polygons@)))
            == crate::area::pieces_area2(views(polygons@)),
{
    proof {
        assert(crate::area::all_closed(views(polygons@))) by {
            assert forall|i: int| 0 <= i < views(polygons@).len() implies (
            #[trigger] views(polygons@)[i]).bottom.is_some() by {
                assert(polygons@[i]@.bottom.is_some());
            }
        }
        crate::area::lemma_pieces_area(views(polygons@));
    }
    let mut k: usize = 0;
    while k < polygons.len()
        invariant
            k <= polygons.len(),
            all_finished(polygons@),
            forall|i: int| 0 <= i < k ==> crate::area::well_turned(#[trigger] views(polygons@)[i]),
            crate::area::all_well_turned(views(polygons@)) <==> crate::area::total_area2(
                all_triangles(views(polygons@)),
            ) == crate::area::pieces_area2(views(polygons@)),
        decreases polygons.len() - k,
    {
        if !crate::monotone_polygon::is_well_turned(&polygons[k]) {
            assert(!crate::area::well_turned(views(polygons@)[k as int]));
            return false;
        }
        k += 1;
    }
    true
}

/// The table leads from the key of each vertex to its place, and to nothing
/// else.
spec fn table_fits(vertices: Seq<Point>, table: Map<u64, usize>) -> bool {
    &&& forall|i: int|
        0 <= i < vertices.len() ==> table.contains_key((#[trigger] vertices[i]).spec_key())
            && table[vertices[i].spec_key()] == i
    &&& forall|k: u64| #[trigger]
        table.contains_key(k) ==> table[k] < vertices.len() && vertices[table[k] as int].spec_key()
            == k
}

/// The place of `p` among the vertices, where it is put at the end if it is
/// not there yet.
fn vertex_index(vertices: &mut Vec<Point>, table: &mut HashMap<u64, usize>, p: Point) -> (i: usize)
    requires
        table_fits(old(vertices)@, old(table)@),
    ensures
        table_fits(final(vertices)@, final(table)@),
        i < final(vertices).len(),
        final(vertices)[i as int] == p,
        final(vertices)@ == if old(vertices)@.contains(p) {
            old(vertices)@
        } else {
            old(vertices)@.push(p)
        },
{
    let key = p.key();
    let found = match table.get(&key) {
        Some(i) => Some(*i),
        None => None,
    };
    match found {
        Some(i) => {
            proof {
                p.lemma_key_order(vertices@[i as int]);
            }
            i
        },
        None => {
            proof {
                if vertices@.contains(p) {
                    let j = choose|j: int| 0 <= j < vertices.len() && vertices@[j] == p;
                    assert(table@.contains_key(vertices@[j].spec_key()));
                }
            }
            let n = vertices.len();
            vertices.push(p);
            table.insert(key, n);
            proof {
                assert forall|j: int| 0 <= j < vertices.len() implies table@.contains_key(
                    (#[trigger] vertices@[j]).spec_key(),
                ) && table@[vertices@[j].spec_key()] == j by {
                    if j < n {
                        assert(vertices@[j] == old(vertices)@[j]);
                        p.lemma_key_order(vertices@[j]);
                    }
                }
                assert forall|k: u64| #[trigger] table@.contains_key(k) implies table@[k]
                    < vertices.len() && vertices@[table@[k] as int].spec_key() == k by {
                    if k != key {
                        assert(old(table)@.contains_key(k));
                        assert(vertices@[table@[k] as int] == old(vertices)@[table@[k] as int]);
                    }
                }
            }
            n
        },
    }
}

/// A table that fits holds no vertex twice.
proof fn lemma_table_fits_distinct(vertices: Seq<Point>, table: Map<u64, usize>)
    requires
        table_fits(vertices, table),
    ensures
        vertices.no_duplicates(),
{
    assert forall|i: int, j: int|
        0 <= i < vertices.len() && 0 <= j < vertices.len() && i != j implies vertices[i]
        != vertices[j] by {
        assert(table[vertices[i].spec_key()] == i);
        assert(table[vertices[j].spec_key()] == j);
    }
}

/// Numbers the corners of a list of triangles: the vertices, each once in the
/// order in which they first occur as corners, and the triangles over them.
pub fn index_triangles(point_triangles: &Vec<PointTriangle>) -> (r: (Vec<Triangle>, Vec<Point>))
    ensures
        indexed(r.0@, r.1@, point_triangles@),
        r.1@ == first_occurrences(corners(point_triangles@)),
{
    let mut triangles: Vec<Triangle> = Vec::new();
    let mut vertices: Vec<Point> = Vec::new();
    let mut table: HashMap<u64, usize> = HashMap::new();
    let mut k: usize = 0;
    while k < point_triangles.len()
        invariant
            k <= point_triangles.len(),
            table_fits(vertices@, table@),
            triangles.len() == k,
            vertices@ == first_occurrences(corners(point_triangles@).take(3 * k)),
            forall|p: Point|
                vertices@.contains(p) <==> exists|i: int|
                    0 <= i < k && is_corner(#[trigger] point_triangles@[i], p),
            forall|i: int|
                0 <= i < k ==> {
                    &&& (#[trigger] triangles@[i]).x < vertices.len()
                    &&& triangles@[i].y < vertices.len()
                    &&& triangles@[i].z < vertices.len()
                    &&& vertices@[triangles@[i].x as int] == point_triangles@[i].p1
                    &&& vertices@[triangles@[i].y as int] == point_triangles@[i].p2
                    &&& vertices@[triangles@[i].z as int] == point_triangles@[i].p3
                },
        decreases point_triangles.len() - k,
    {
        let t = point_triangles[k];
        let ghost v0 = vertices@;
        let ghost old_triangles = triangles@;
        let x = vertex_index(&mut vertices, &mut table, t.p1);
        let ghost v1 = vertices@;
        let y = vertex_index(&mut vertices, &mut table, t.p2);
        let ghost v2 = vertices@;
        let z = vertex_index(&mut vertices, &mut table, t.p3);
        triangles.push(Triangle::new(x, y, z));
        proof {
            let all = corners(point_triangles@);
            assert(all.take(3 * k + 1).drop_last() =~= all.take(3 * k));
            assert(all.take(3 * k + 2).drop_last() =~= all.take(3 * k + 1));
            assert(all.take(3 * k + 3).drop_last() =~= all.take(3 * k + 2));
            assert(all.take(3 * k + 1).last() == t.p1);
            assert(all.take(3 * k + 2).last() == t.p2);
            assert(all.take(3 * k + 3).last() == t.p3);
            assert(v1 == first_occurrences(all.take(3 * k + 1)));
            assert(v2 == first_occurrences(all.take(3 * k + 2)));
            assert(vertices@ == first_occurrences(all.take(3 * k + 3)));
            let v3 = vertices@;
            lemma_push_contains(v0, t.p1);
            lemma_push_contains(v1, t.p2);
            lemma_push_contains(v2, t.p3);
            assert forall|i: int| 0 <= i < v0.len() implies v3[i] == v0[i] by {
                assert(v1[i] == v0[i]);
                assert(v2[i] == v1[i]);
            }
            assert(v3[x as int] == t.p1 && v3[y as int] == t.p2);
            assert forall|p: Point|
                vertices@.contains(p) <==> exists|i: int|
                    0 <= i < k + 1 && is_corner(#[trigger] point_triangles@[i], p) by {
                if vertices@.contains(p) {
                    if v0.contains(p) {
                        let i = choose|i: int|
                            0 <= i < k && is_corner(#[trigger] point_triangles@[i], p);
                        assert(0 <= i < k + 1);
                    } else {
                        assert(is_corner(point_triangles@[k as int], p));
                    }
                }
                if exists|i: int| 0 <= i < k + 1 && is_corner(#[trigger] point_triangles@[i], p) {
                    let i = choose|i: int|
                        0 <= i < k + 1 && is_corner(#[trigger] point_triangles@[i], p);
                    if i < k {
                        assert(v0.contains(p));
                    }
                }
            }
            assert forall|i: int| 0 <= i < k + 1 implies {
                &&& (#[trigger] triangles@[i]).x < vertices.len()
                &&& triangles@[i].y < vertices.len()
                &&& triangles@[i].z < vertices.len()
                &&& vertices@[triangles@[i].x as int] == point_triangles@[i].p1
                &&& vertices@[triangles@[i].y as int] == point_triangles@[i].p2
                &&& vertices@[triangles@[i].z as int] == point_triangles@[i].p3
            } by {
                if i < k {
                    assert(triangles@[i] == old_triangles[i]);
                }
            }
        }
        k += 1;
    }
    proof {
        lemma_table_fits_distinct(vertices@, table@);
        lemma_corners(point_triangles@);
        assert(corners(point_triangles@).take(3 * k) =~= corners(point_triangles@));
    }
    (triangles, vertices)
}

/// `p` is a corner of the triangle.
pub open spec fn is_corner(t: PointTriangle, p: Point) -> bool {
    t.p1 == p || t.p2 == p || t.p3 == p
}

/// The corners of a list of triangles are the points that are a corner of one
/// of the triangles.
pub proof fn lemma_corners(triangles: Seq<PointTriangle>)
    ensures
        forall|p: Point|
            corners(triangles).contains(p) <==> exists|i: int|
                0 <= i < triangles.len() && is_corner(#[trigger] triangles[i], p),
{
    let c = corners(triangles);
    assert forall|p: Point|
        c.contains(p) <==> exists|i: int|
            0 <= i < triangles.len() && is_corner(#[trigger] triangles[i], p) by {
        if c.contains(p) {
            let k = choose|k: int| 0 <= k < c.len() && c[k] == p;
            assert(is_corner(triangles[k / 3], p));
        }
        if exists|i: int| 0 <= i < triangles.len() && is_corner(#[trigger] triangles[i], p) {
            let i = choose|i: int| 0 <= i < triangles.len() && is_corner(#[trigger] triangles[i], p);
            if triangles[i].p1 == p {
                assert(c[3 * i] == p);
            } else if triangles[i].p2 == p {
                assert(c[3 * i + 1] == p);
            } else {
                assert(c[3 * i + 2] == p);
            }
        }
    }
}

/// A list with a point added where it is not in it holds the points of the
/// list and that point.
proof fn lemma_push_contains(v: Seq<Point>, p: Point)
    ensures
        forall|q: Point|
            (if v.contains(p) {
                v
            } else {
                v.push(p)
            }).contains(q) <==> v.contains(q) || q == p,
{
    let w = if v.contains(p) {
        v
    } else {
        v.push(p)
    };
    assert forall|q: Point| w.contains(q) <==> v.contains(q) || q == p by {
        if v.contains(q) {
            let i = choose|i: int| 0 <= i < v.len() && v[i] == q;
            assert(w[i] == q);
        }
        if q == p && !v.contains(p) {
            assert(w[v.len() as int] == p);
        }
        if w.contains(q) {
            let i = choose|i: int| 0 <= i < w.len() && w[i] == q;
            if i < v.len() {
                assert(v[i] == q);
            }
        }
    }
}

/// The triangles of the outcome of a sweep with their corners numbered, or its
/// error.
pub open spec fn face_of(
    outcome: Result<Seq<MonotonePolygonView>, SweepError>,
    r: Result<(Vec<Triangle>, Vec<Point>), SweepError>,
) -> bool {
    match outcome {
        Err(e) => r == Err::<(Vec<Triangle>, Vec<Point>), SweepError>(e),
        Ok(polygons) => r matches Ok(face) && indexed(face.0@, face.1@, all_triangles(polygons))
            && face.1@ == first_occurrences(corners(all_triangles(polygons))),
    }
}

/// Fills the region that `edges` bound with triangles: the sweep cuts it into
/// monotone polygons, each of them is cut into triangles, and the corners are
/// numbered. The result is the triangles over the list of vertices, or the
/// error at which the sweep stopped.
pub fn face_triangulation(edges: Vec<Segment>) -> (r: Result<(Vec<Triangle>, Vec<Point>), SweepError>)
    requires
        forall|i: int| 0 <= i < edges.len() ==> (#[trigger] edges[i]).wf(),
    ensures
        exists|point_to_edges: PointToEdges| #[trigger] point_to_edges.describes(edges@),
        forall|point_to_edges: PointToEdges| #[trigger]
            point_to_edges.describes(edges@) ==> face_of(
                SweepState::sweep(point_to_edges).result(),
                r,
            ),
{
    match sweeping_line_triangulation(edges) {
        Err(e) => Err(e),
        Ok(polygons) => {
            let point_triangles = triangulate_polygons(&polygons);
            Ok(index_triangles(&point_triangles))
        },
    }
}

/// Fills the region that the polygons cover by the even-odd rule with
/// triangles: the edges that occur an odd number of times bound the region,
/// and `face_triangulation` fills it.
pub fn triangulate_polygons_face(polygon_list: &[Vec<Point>]) -> (r: Result<
    (Vec<Triangle>, Vec<Point>),
    SweepError,
>)
    requires
        forall|i: int|
            0 <= i < polygon_list.len() ==> no_repeated_point((#[trigger] polygon_list[i])@),
    ensures
        exists|point_to_edges: PointToEdges| #[trigger]
            point_to_edges.describes(odd_in_order(all_edges(point_lists(polygon_list@)))),
        face_of_edges(odd_in_order(all_edges(point_lists(polygon_list@))), r),
{
    let edges = calc_dedup_edges(polygon_list);
    face_triangulation(edges)
}

/// The result is the triangulation of the region that `edges` bound, by the
/// sweep over the lists of the endpoints of `edges`.
pub open spec fn face_of_edges(
    edges: Seq<Segment>,
    r: Result<(Vec<Triangle>, Vec<Point>), SweepError>,
) -> bool {
    forall|point_to_edges: PointToEdges| #[trigger]
        point_to_edges.describes(edges) ==> face_of(SweepState::sweep(point_to_edges).result(), r)
}

} // verus!
