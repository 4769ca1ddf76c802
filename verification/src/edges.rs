//! The edges of polygons, with edges that occur an even number of times
//! taken out: what is left bounds the region that the polygons cover by the
//! even-odd rule.
use crate::point::{Point, Segment};
use std::collections::HashSet;
use vstd::prelude::*;

verus! {

broadcast use vstd::std_specs::hash::group_hash_axioms;

/// No point of the polygon is followed by itself.
pub open spec fn no_repeated_point(polygon: Seq<Point>) -> bool {
    forall|i: int| 0 <= i < polygon.len() - 1 ==> #[trigger] polygon[i] != polygon[i + 1]
}

/// The edges between the points of a polygon that follow each other.
pub open spec fn open_edges(polygon: Seq<Point>) -> Seq<Segment> {
    Seq::new(
        if polygon.len() == 0 {
            0
        } else {
            (polygon.len() - 1) as nat
        },
        |i: int| Segment::spec_new(polygon[i], polygon[i + 1]),
    )
}

/// The edges of a polygon: those between the points that follow each other,
/// and the edge from the last point back to the first where the two differ.
pub open spec fn polygon_edges(polygon: Seq<Point>) -> Seq<Segment> {
    if polygon.len() > 0 && polygon.last() != polygon[0] {
        open_edges(polygon).push(Segment::spec_new(polygon.last(), polygon[0]))
    } else {
        open_edges(polygon)
    }
}

/// The edges of all polygons of a list, one polygon after the other.
pub open spec fn all_edges(polygons: Seq<Seq<Point>>) -> Seq<Segment>
    decreases polygons.len(),
{
    if polygons.len() == 0 {
        Seq::empty()
    } else {
        all_edges(polygons.drop_last()) + polygon_edges(polygons.last())
    }
}

/// How often a segment occurs in a list.
pub open spec fn occurrences(edges: Seq<Segment>, segment: Segment) -> nat
    decreases edges.len(),
{
    if edges.len() == 0 {
        0
    } else {
        occurrences(edges.drop_last(), segment) + if edges.last() == segment {
            1nat
        } else {
            0nat
        }
    }
}

/// The segment occurs an odd number of times in the list.
pub open spec fn occurs_odd(edges: Seq<Segment>, segment: Segment) -> bool {
    occurrences(edges, segment) % 2 == 1
}

/// The segments that occur an odd number of times in the list.
pub open spec fn odd_edges(edges: Seq<Segment>) -> Set<Segment> {
    Set::new(|s: Segment| occurs_odd(edges, s))
}

/// The segments with the endpoint `v` that occur an odd number of times in
/// the list.
pub open spec fn odd_edges_at(edges: Seq<Segment>, v: Point) -> Set<Segment> {
    Set::new(|s: Segment| occurs_odd(edges, s) && s.has_endpoint(v))
}

/// How many segments of the list, each as often as it occurs, have the
/// endpoint `v`.
pub open spec fn degree(edges: Seq<Segment>, v: Point) -> nat
    decreases edges.len(),
{
    if edges.len() == 0 {
        0
    } else {
        degree(edges.drop_last(), v) + if edges.last().has_endpoint(v) {
            1nat
        } else {
            0nat
        }
    }
}

/// Of the first `k` segments of the list those that occur an odd number of
/// times in the whole list, each where it first occurs.
pub open spec fn odd_among(edges: Seq<Segment>, k: int) -> Seq<Segment>
    decreases k,
{
    if k <= 0 {
        Seq::empty()
    } else if occurs_odd(edges, edges[k - 1]) && !edges.take(k - 1).contains(edges[k - 1]) {
        odd_among(edges, k - 1).push(edges[k - 1])
    } else {
        odd_among(edges, k - 1)
    }
}

/// The segments that occur an odd number of times in the list, each once, in
/// the order in which they first occur.
pub open spec fn odd_in_order(edges: Seq<Segment>) -> Seq<Segment> {
    odd_among(edges, edges.len() as int)
}

/// The lists of points that a list of vectors holds.
pub open spec fn point_lists(polygons: Seq<Vec<Point>>) -> Seq<Seq<Point>> {
    polygons.map_values(|polygon: Vec<Point>| polygon@)
}

/// A segment that occurs in a list is in the list.
pub proof fn lemma_occurrences_contains(edges: Seq<Segment>, segment: Segment)
    ensures
        occurrences(edges, segment) > 0 <==> edges.contains(segment),
    decreases edges.len(),
{
    if edges.len() > 0 {
        lemma_occurrences_contains(edges.drop_last(), segment);
        if edges.contains(segment) {
            let i = choose|i: int| 0 <= i < edges.len() && edges[i] == segment;
            if i < edges.len() - 1 {
                assert(edges.drop_last()[i] == segment);
            }
        }
        if edges.drop_last().contains(segment) {
            let i = choose|i: int| 0 <= i < edges.len() - 1 && edges.drop_last()[i] == segment;
            assert(edges[i] == segment);
        }
    }
}

/// In two lists put together a segment occurs as often as in both.
pub proof fn lemma_occurrences_add(a: Seq<Segment>, b: Seq<Segment>, segment: Segment)
    ensures
        occurrences(a + b, segment) == occurrences(a, segment) + occurrences(b, segment),
    decreases b.len(),
{
    if b.len() == 0 {
        assert(a + b =~= a);
    } else {
        assert((a + b).drop_last() =~= a + b.drop_last());
        lemma_occurrences_add(a, b.drop_last(), segment);
    }
}

/// The edges of a polygon, added to `edges`.
pub fn push_polygon_edges(edges: &mut Vec<Segment>, polygon: &[Point])
    requires
        no_repeated_point(polygon@),
    ensures
        final(edges)@ == old(edges)@ + polygon_edges(polygon@),
{
    let n = polygon.len();
    if n == 0 {
        assert(edges@ =~= old(edges)@ + polygon_edges(polygon@));
        return ;
    }
    let mut i: usize = 0;
    assert(edges@ =~= old(edges)@ + open_edges(polygon@).take(0));
    while i + 1 < n
        invariant
            n == polygon.len(),
            n > 0,
            i < n,
            no_repeated_point(polygon@),
            edges@ == old(edges)@ + open_edges(polygon@).take(i as int),
        decreases n - i,
    {
        edges.push(Segment::new(polygon[i], polygon[i + 1]));
        i += 1;
        assert(edges@ =~= old(edges)@ + open_edges(polygon@).take(i as int));
    }
    assert(open_edges(polygon@).take(i as int) =~= open_edges(polygon@));
    if polygon[n - 1] != polygon[0] {
        edges.push(Segment::new(polygon[n - 1], polygon[0]));
    }
    assert(edges@ =~= old(edges)@ + polygon_edges(polygon@));
}

/// All edges of the polygons, one polygon after the other.
fn collect_edges(polygon_list: &[Vec<Point>]) -> (edges: Vec<Segment>)
    requires
        forall|i: int|
            0 <= i < polygon_list.len() ==> no_repeated_point((#[trigger] polygon_list[i])@),
    ensures
        edges@ == all_edges(point_lists(polygon_list@)),
{
    let mut edges: Vec<Segment> = Vec::new();
    let mut k: usize = 0;
    assert(point_lists(polygon_list@).take(0) =~= Seq::empty());
    while k < polygon_list.len()
        invariant
            k <= polygon_list.len(),
            forall|i: int|
                0 <= i < polygon_list.len() ==> no_repeated_point((#[trigger] polygon_list[i])@),
            edges@ == all_edges(point_lists(polygon_list@).take(k as int)),
        decreases polygon_list.len() - k,
    {
        push_polygon_edges(&mut edges, polygon_list[k].as_slice());
        k += 1;
        proof {
            let lists = point_lists(polygon_list@);
            assert(lists.take(k as int).drop_last() =~= lists.take(k - 1));
            assert(lists.take(k as int).last() == polygon_list@[k - 1]@);
        }
    }
    assert(point_lists(polygon_list@).take(k as int) =~= point_lists(polygon_list@));
    edges
}

/// Of the segments of a list those that occur an odd number of times, each
/// once, in the order in which they first occur.
pub fn dedup_segments(edges: &Vec<Segment>) -> (r: Vec<Segment>)
    ensures
        r@ == odd_in_order(edges@),
        r@.no_duplicates(),
        forall|s: Segment| r@.contains(s) <==> occurs_odd(edges@, s),
{
    let mut odd: HashSet<u128> = HashSet::new();
    let mut k: usize = 0;
    assert(edges@.take(0) =~= Seq::empty());
    while k < edges.len()
        invariant
            k <= edges.len(),
            forall|s: Segment|
                odd@.contains(#[trigger] s.spec_key()) <==> occurs_odd(edges@.take(k as int), s),
        decreases edges.len() - k,
    {
        let edge = edges[k];
        let key = edge.key();
        let was_in = odd.remove(&key);
        if !was_in {
            odd.insert(key);
        }
        k += 1;
        proof {
            assert(edges@.take(k as int).drop_last() =~= edges@.take(k - 1));
            assert(edges@.take(k as int).last() == edge);
            assert forall|s: Segment|
                odd@.contains(#[trigger] s.spec_key()) <==> occurs_odd(
                    edges@.take(k as int),
                    s,
                ) by {
                s.lemma_key_injective(edge);
            }
        }
    }
    assert(edges@.take(k as int) =~= edges@);
    let mut r: Vec<Segment> = Vec::new();
    let mut k: usize = 0;
    while k < edges.len()
        invariant
            k <= edges.len(),
            r@ == odd_among(edges@, k as int),
            r@.no_duplicates(),
            forall|s: Segment|
                r@.contains(s) <==> occurs_odd(edges@, s) && edges@.take(k as int).contains(s),
            forall|s: Segment|
                odd@.contains(#[trigger] s.spec_key()) <==> occurs_odd(edges@, s)
                    && !edges@.take(k as int).contains(s),
        decreases edges.len() - k,
    {
        let edge = edges[k];
        let key = edge.key();
        let ghost before = r@;
        let ghost seen = edges@.take(k as int);
        let is_odd = odd.remove(&key);
        if is_odd {
            r.push(edge);
        }
        k += 1;
        proof {
            let now = edges@.take(k as int);
            assert(now =~= seen.push(edge));
            assert forall|s: Segment| now.contains(s) <==> seen.contains(s) || s == edge by {
                if seen.contains(s) {
                    let i = choose|i: int| 0 <= i < seen.len() && seen[i] == s;
                    assert(now[i] == s);
                }
                if s == edge {
                    assert(now[k - 1] == s);
                }
            }
            assert forall|s: Segment|
                odd@.contains(#[trigger] s.spec_key()) <==> occurs_odd(edges@, s)
                    && !now.contains(s) by {
                s.lemma_key_injective(edge);
            }
            assert forall|s: Segment|
                r@.contains(s) <==> occurs_odd(edges@, s) && now.contains(s) by {
                s.lemma_key_injective(edge);
                if is_odd {
                    assert(r@ == before.push(edge));
                    if before.contains(s) {
                        let i = choose|i: int| 0 <= i < before.len() && before[i] == s;
                        assert(r@[i] == s);
                    }
                    if s == edge {
                        assert(r@[before.len() as int] == s);
                    }
                }
            }
            if is_odd {
                assert(!before.contains(edge));
            }
        }
    }
    proof {
        assert(edges@.take(k as int) =~= edges@);
        assert forall|s: Segment| r@.contains(s) <==> occurs_odd(edges@, s) by {
            lemma_occurrences_contains(edges@, s);
        }
    }
    r
}

/// The edges of the polygons that occur an odd number of times, each once.
///
/// A polygon's edges run between the points that follow each other, and from
/// its last point back to its first where the two differ. An edge that occurs
/// twice, four times and so on is left out, whichever way it runs; one that
/// occurs once, three times and so on is returned once. The edges come in the
/// order in which they first occur.
pub fn calc_dedup_edges(polygon_list: &[Vec<Point>]) -> (r: Vec<Segment>)
    requires
        forall|i: int|
            0 <= i < polygon_list.len() ==> no_repeated_point((#[trigger] polygon_list[i])@),
    ensures
        r@ == odd_in_order(all_edges(point_lists(polygon_list@))),
        r@.no_duplicates(),
        forall|s: Segment|
            r@.contains(s) <==> occurs_odd(all_edges(point_lists(polygon_list@)), s),
        r@.to_set() == odd_edges(all_edges(point_lists(polygon_list@))),
        forall|i: int| 0 <= i < r.len() ==> (#[trigger] r[i]).wf(),
{
    let edges = collect_edges(polygon_list);
    let r = dedup_segments(&edges);
    proof {
        assert(r@.to_set() =~= odd_edges(edges@));
        assert forall|i: int| 0 <= i < r.len() implies (#[trigger] r[i]).wf() by {
            assert(r@.contains(r[i]));
            lemma_occurrences_contains(edges@, r[i]);
            lemma_all_edges_wf(point_lists(polygon_list@));
        }
    }
    r
}

/// No point of any polygon of the list is followed by itself.
pub open spec fn no_repeated_points(polygons: Seq<Seq<Point>>) -> bool {
    forall|i: int| 0 <= i < polygons.len() ==> no_repeated_point(#[trigger] polygons[i])
}

/// The edges of a polygon in which no point is followed by itself have their
/// ends in order.
pub proof fn lemma_polygon_edges_wf(polygon: Seq<Point>)
    requires
        no_repeated_point(polygon),
    ensures
        forall|i: int|
            0 <= i < polygon_edges(polygon).len() ==> (#[trigger] polygon_edges(polygon)[i]).wf(),
{
    assert forall|i: int| 0 <= i < polygon_edges(polygon).len() implies (#[trigger] polygon_edges(
        polygon,
    )[i]).wf() by {
        if i < open_edges(polygon).len() {
            assert(polygon[i] != polygon[i + 1]);
            Segment::lemma_new_symmetric(polygon[i], polygon[i + 1]);
        } else {
            Segment::lemma_new_symmetric(polygon.last(), polygon[0]);
        }
    }
}

/// The edges of polygons in which no point is followed by itself have their
/// ends in order.
pub proof fn lemma_all_edges_wf(polygons: Seq<Seq<Point>>)
    requires
        no_repeated_points(polygons),
    ensures
        forall|s: Segment| all_edges(polygons).contains(s) ==> s.wf(),
    decreases polygons.len(),
{
    if polygons.len() > 0 {
        lemma_all_edges_wf(polygons.drop_last());
        lemma_polygon_edges_wf(polygons.last());
        assert forall|s: Segment| all_edges(polygons).contains(s) implies s.wf() by {
            let i = choose|i: int| 0 <= i < all_edges(polygons).len() && all_edges(polygons)[i] == s;
            let first = all_edges(polygons.drop_last());
            if i < first.len() {
                assert(first[i] == s);
                assert(first.contains(s));
            } else {
                assert(polygon_edges(polygons.last())[i - first.len()] == s);
            }
        }
    }
}

/// The edges that are left of two polygons are the same in whichever order the
/// polygons are given.
pub proof fn lemma_dedup_edges_commute(first: Seq<Point>, second: Seq<Point>)
    ensures
        odd_edges(all_edges(seq![first, second])) == odd_edges(all_edges(seq![second, first])),
{
    let a = polygon_edges(first);
    let b = polygon_edges(second);
    lemma_all_edges_two(first, second);
    lemma_all_edges_two(second, first);
    assert forall|s: Segment| occurs_odd(a + b, s) == occurs_odd(b + a, s) by {
        lemma_occurrences_add(a, b, s);
        lemma_occurrences_add(b, a, s);
    }
    assert(odd_edges(a + b) =~= odd_edges(b + a));
}

/// The edges of two polygons are those of the first, then those of the
/// second.
pub proof fn lemma_all_edges_two(first: Seq<Point>, second: Seq<Point>)
    ensures
        all_edges(seq![first, second]) == polygon_edges(first) + polygon_edges(second),
{
    let both = seq![first, second];
    assert(both.drop_last() =~= seq![first]);
    assert(both.last() == second);
    lemma_all_edges_one(first);
}

/// The edges of one polygon.
pub proof fn lemma_all_edges_one(p: Seq<Point>)
    ensures
        all_edges(seq![p]) == polygon_edges(p),
{
    let one = seq![p];
    let none = one.drop_last();
    assert(none.len() == 0);
    assert(all_edges(none) =~= Seq::<Segment>::empty());
    assert(one.last() == p);
    assert(all_edges(one) == all_edges(none) + polygon_edges(p));
    assert(all_edges(one) =~= polygon_edges(p));
}

/// Along a polygon from its first point to its point number `j`, the edges
/// that end in `v` are even in number, but for `v` at one end of the walk.
proof fn lemma_walk_degree(polygon: Seq<Point>, j: int, v: Point)
    requires
        no_repeated_point(polygon),
        0 <= j < polygon.len(),
    ensures
        degree(open_edges(polygon.take(j + 1)), v) % 2 == (if v == polygon[0] {
            1int
        } else {
            0int
        } + if v == polygon[j] {
            1int
        } else {
            0int
        }) % 2,
    decreases j,
{
    let walk = open_edges(polygon.take(j + 1));
    if j == 0 {
        assert(walk.len() == 0);
    } else {
        lemma_walk_degree(polygon, j - 1, v);
        let before = open_edges(polygon.take(j));
        assert(walk.drop_last() =~= before);
        assert(walk.last() == Segment::spec_new(polygon[j - 1], polygon[j]));
        assert(polygon[j - 1] != polygon[j]);
        Segment::lemma_new_symmetric(polygon[j - 1], polygon[j]);
    }
}

/// In the edges of a polygon every point is an endpoint an even number of
/// times.
pub proof fn lemma_polygon_degree_even(polygon: Seq<Point>, v: Point)
    requires
        no_repeated_point(polygon),
    ensures
        degree(polygon_edges(polygon), v) % 2 == 0,
{
    if polygon.len() > 0 {
        let n = polygon.len() as int;
        lemma_walk_degree(polygon, n - 1, v);
        assert(polygon.take(n) =~= polygon);
        if polygon.last() != polygon[0] {
            let edges = polygon_edges(polygon);
            assert(edges.drop_last() =~= open_edges(polygon));
            Segment::lemma_new_symmetric(polygon.last(), polygon[0]);
        }
    }
}

/// The segments at `v` that occur an odd number of times are finitely many,
/// and their number is even exactly if the segments at `v`, each as often as
/// it occurs, are even in number.
pub proof fn lemma_odd_edges_degree(edges: Seq<Segment>, v: Point)
    ensures
        odd_edges_at(edges, v).finite(),
        odd_edges_at(edges, v).len() % 2 == degree(edges, v) % 2,
    decreases edges.len(),
{
    if edges.len() == 0 {
        assert(odd_edges_at(edges, v) =~= Set::<Segment>::empty());
    } else {
        let init = edges.drop_last();
        let e = edges.last();
        lemma_odd_edges_degree(init, v);
        let before = odd_edges_at(init, v);
        let now = odd_edges_at(edges, v);
        if e.has_endpoint(v) {
            if occurs_odd(init, e) {
                assert(now =~= before.remove(e));
            } else {
                assert(now =~= before.insert(e));
            }
        } else {
            assert(now =~= before);
        }
    }
}

/// Of the edges that are left of one polygon, an even number ends in each
/// point.
pub proof fn lemma_dedup_edges_even_degree(polygon: Seq<Point>, v: Point)
    requires
        no_repeated_point(polygon),
    ensures
        odd_edges_at(all_edges(seq![polygon]), v).finite(),
        odd_edges_at(all_edges(seq![polygon]), v).len() % 2 == 0,
{
    lemma_all_edges_one(polygon);
    lemma_polygon_degree_even(polygon, v);
    lemma_odd_edges_degree(polygon_edges(polygon), v);
}

/// The segments that occur an odd number of times, in the order in which they
/// first occur, are each there once, and are all of them.
pub proof fn lemma_odd_in_order(edges: Seq<Segment>)
    ensures
        odd_in_order(edges).no_duplicates(),
        odd_in_order(edges).to_set() == odd_edges(edges),
{
    lemma_odd_among(edges, edges.len() as int);
    assert(edges.take(edges.len() as int) =~= edges);
    assert forall|s: Segment| odd_in_order(edges).contains(s) <==> occurs_odd(edges, s) by {
        lemma_occurrences_contains(edges, s);
    }
    assert(odd_in_order(edges).to_set() =~= odd_edges(edges));
}

/// Among the first `k` segments, those that occur an odd number of times are
/// each there once.
proof fn lemma_odd_among(edges: Seq<Segment>, k: int)
    requires
        0 <= k <= edges.len(),
    ensures
        odd_among(edges, k).no_duplicates(),
        forall|s: Segment|
            odd_among(edges, k).contains(s) <==> occurs_odd(edges, s) && edges.take(k).contains(s),
    decreases k,
{
    if k > 0 {
        lemma_odd_among(edges, k - 1);
        let before = odd_among(edges, k - 1);
        let now = odd_among(edges, k);
        let e = edges[k - 1];
        let seen = edges.take(k - 1);
        let all = edges.take(k);
        assert(all =~= seen.push(e));
        assert forall|s: Segment| all.contains(s) <==> seen.contains(s) || s == e by {
            if seen.contains(s) {
                let i = choose|i: int| 0 <= i < seen.len() && seen[i] == s;
                assert(all[i] == s);
            }
            if s == e {
                assert(all[k - 1] == s);
            }
        }
        assert forall|s: Segment| now.contains(s) <==> occurs_odd(edges, s) && all.contains(s) by {
            if now != before {
                if before.contains(s) {
                    let i = choose|i: int| 0 <= i < before.len() && before[i] == s;
                    assert(now[i] == s);
                }
                if s == e {
                    assert(now[before.len() as int] == s);
                }
            }
        }
    } else {
        assert(edges.take(0) =~= Seq::<Segment>::empty());
    }
}

} // verus!
