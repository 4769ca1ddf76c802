//! The endpoints of a set of edges from the highest down, each with the edges
//! that meet in it, and the kind of event that each endpoint is to the sweep.
use crate::half_edge::{lemma_before_order, sort_half_edges, sorted, HalfEdge};
use crate::point::{orientation, spec_orientation, Orientation, Point, Segment};
use std::cmp::Ordering;
use vstd::prelude::*;
use vstd::seq_lib::*;

verus! {

/// An edge at a point: its number, and its other endpoint.
#[derive(Debug, Clone, Copy)]
pub struct PointEdgeInfo {
    pub edge_index: usize,
    pub opposite_point: Point,
}

/// The endpoints of a set of edges, strictly descending, and for each the
/// edges that meet in it.
#[derive(Debug)]
pub struct PointToEdges {
    pub points: Vec<Point>,
    pub infos: Vec<Vec<PointEdgeInfo>>,
}

/// The kind of event that a point is, with its segments.
#[derive(Debug, PartialEq, Eq)]
pub enum PointType {
    /// More or fewer than two edges meet in the point.
    Intersection(Vec<Segment>),
    /// Both edges leave downwards: the left one, then the right one.
    Split(Segment, Segment),
    /// Both edges arrive from above: the left one, then the right one.
    Merge(Segment, Segment),
    /// One edge arrives from above, one leaves downwards: the upper one, then
    /// the lower one.
    Normal(Segment, Segment),
}

/// What a `PointType` holds, as mathematical values.
pub enum PointTypeView {
    Intersection(Seq<Segment>),
    Split(Segment, Segment),
    Merge(Segment, Segment),
    Normal(Segment, Segment),
}

impl View for PointType {
    type V = PointTypeView;

    open spec fn view(&self) -> PointTypeView {
        match *self {
            PointType::Intersection(v) => PointTypeView::Intersection(v@),
            PointType::Split(a, b) => PointTypeView::Split(a, b),
            PointType::Merge(a, b) => PointTypeView::Merge(a, b),
            PointType::Normal(a, b) => PointTypeView::Normal(a, b),
        }
    }
}

impl PartialEq for PointEdgeInfo {
    /// Two entries are equal where their opposite points are.
    fn eq(&self, other: &Self) -> (r: bool) {
        self.opposite_point == other.opposite_point
    }
}

impl vstd::std_specs::cmp::PartialEqSpecImpl for PointEdgeInfo {
    open spec fn obeys_eq_spec() -> bool {
        true
    }

    open spec fn eq_spec(&self, other: &Self) -> bool {
        self.opposite_point == other.opposite_point
    }
}

impl PartialOrd for PointEdgeInfo {
    /// Entries are ordered by their opposite points.
    fn partial_cmp(&self, other: &Self) -> (r: Option<Ordering>) {
        if self.opposite_point < other.opposite_point {
            Some(Ordering::Less)
        } else if other.opposite_point < self.opposite_point {
            Some(Ordering::Greater)
        } else {
            Some(Ordering::Equal)
        }
    }
}

impl vstd::std_specs::cmp::PartialOrdSpecImpl for PointEdgeInfo {
    open spec fn obeys_partial_cmp_spec() -> bool {
        true
    }

    open spec fn partial_cmp_spec(&self, other: &Self) -> Option<Ordering> {
        if self.opposite_point.spec_lt(other.opposite_point) {
            Some(Ordering::Less)
        } else if other.opposite_point.spec_lt(self.opposite_point) {
            Some(Ordering::Greater)
        } else {
            Some(Ordering::Equal)
        }
    }
}

impl PointEdgeInfo {
    /// The entry for the edge number `edge_index` towards `opposite_point`.
    pub fn new(edge_index: usize, opposite_point: Point) -> (r: Self)
        ensures
            r == (PointEdgeInfo { edge_index, opposite_point }),
    {
        PointEdgeInfo { edge_index, opposite_point }
    }

    /// `self` stands before `other` in the list of a point: its opposite
    /// point is the later one, or they are equal and its edge has the lower
    /// number.
    pub open spec fn spec_before(self, other: PointEdgeInfo) -> bool {
        other.opposite_point.spec_lt(self.opposite_point) || (self.opposite_point
            == other.opposite_point && self.edge_index < other.edge_index)
    }
}

/// The entry that a half-edge makes in the list of its point.
pub open spec fn info_of(h: HalfEdge) -> PointEdgeInfo {
    PointEdgeInfo { edge_index: h.index, opposite_point: h.opposite }
}

/// The two half-edges of each edge: first the one at its lower end, then the
/// one at its upper end.
pub open spec fn half_edges_of(edges: Seq<Segment>) -> Seq<HalfEdge> {
    Seq::new(
        2 * edges.len(),
        |k: int|
            if k % 2 == 0 {
                HalfEdge {
                    point: edges[k / 2].bottom,
                    opposite: edges[k / 2].top,
                    index: (k / 2) as usize,
                }
            } else {
                HalfEdge {
                    point: edges[k / 2].top,
                    opposite: edges[k / 2].bottom,
                    index: (k / 2) as usize,
                }
            },
    )
}

/// `infos` is the list of the edges that meet in `p`: each entry names an
/// edge with the endpoints `p` and the opposite point, every edge with the
/// endpoint `p` has an entry, and the entries stand in order.
pub open spec fn incident_list(edges: Seq<Segment>, p: Point, infos: Seq<PointEdgeInfo>) -> bool {
    &&& forall|k: int|
        0 <= k < infos.len() ==> {
            &&& (#[trigger] infos[k]).edge_index < edges.len()
            &&& edges[infos[k].edge_index as int].has_endpoint(p)
            &&& edges[infos[k].edge_index as int].has_endpoint(infos[k].opposite_point)
            &&& infos[k].opposite_point != p
        }
    &&& forall|i: int|
        0 <= i < edges.len() && (#[trigger] edges[i]).has_endpoint(p) ==> exists|k: int|
            0 <= k < infos.len() && (#[trigger] infos[k]).edge_index == i
    &&& forall|a: int, b: int|
        0 <= a < b < infos.len() ==> (#[trigger] infos[a]).spec_before(#[trigger] infos[b])
}

impl PointToEdges {
    /// The points descend strictly, each has its list, which holds an entry,
    /// and no entry of a list names the point itself as the opposite point.
    pub open spec fn wf(&self) -> bool {
        &&& self.points.len() == self.infos.len()
        &&& forall|i: int| 0 <= i < self.infos.len() ==> (#[trigger] self.infos[i]).len() >= 1
        &&& forall|i: int, j: int|
            0 <= i < j < self.points.len() ==> (#[trigger] self.points[j]).spec_lt(
                #[trigger] self.points[i],
            )
        &&& forall|i: int, k: int|
            0 <= i < self.infos.len() && 0 <= k < self.infos[i].len() ==> (
            #[trigger] self.infos[i]@[k]).opposite_point != self.points[i]
    }

    /// The points are the endpoints of `edges`, and each list is the list of
    /// the edges that meet in its point.
    pub open spec fn describes(&self, edges: Seq<Segment>) -> bool {
        &&& self.wf()
        &&& forall|p: Point|
            self.points@.contains(p) <==> exists|i: int|
                0 <= i < edges.len() && (#[trigger] edges[i]).has_endpoint(p)
        &&& forall|g: int|
            0 <= g < self.points.len() ==> incident_list(
                edges,
                #[trigger] self.points[g],
                self.infos[g]@,
            )
    }

    /// Both hold the same points with the same lists.
    pub open spec fn same_as(&self, other: PointToEdges) -> bool {
        &&& self.points@ == other.points@
        &&& self.infos.len() == self.points.len()
        &&& self.infos.len() == other.infos.len()
        &&& forall|k: int| 0 <= k < self.infos.len() ==> (#[trigger] self.infos[k])@ == other.infos[k]@
    }

    /// The place of `p` among the points.
    pub open spec fn index_of(&self, p: Point) -> int {
        choose|i: int| 0 <= i < self.points.len() && self.points[i] == p
    }

    /// The list of the edges that meet in `p`.
    pub open spec fn spec_infos(&self, p: Point) -> Seq<PointEdgeInfo> {
        self.infos[self.index_of(p)]@
    }

    /// The place of the point number `k` is `k`.
    pub proof fn lemma_index_of(&self, k: int)
        requires
            self.wf(),
            0 <= k < self.points.len(),
        ensures
            self.index_of(self.points[k]) == k,
            self.spec_infos(self.points[k]) == self.infos[k]@,
            self.points@.contains(self.points[k]),
    {
        let j = self.index_of(self.points[k]);
        if j < k {
            assert(self.points[k].spec_lt(self.points[j]));
        } else if k < j {
            assert(self.points[j].spec_lt(self.points[k]));
        }
    }

    /// The place of `p` among the points, if it is one of them.
    pub fn find(&self, p: Point) -> (r: Option<usize>)
        requires
            self.wf(),
        ensures
            r.is_some() <==> self.points@.contains(p),
            r matches Some(i) ==> i < self.points.len() && self.points[i as int] == p && i
                == self.index_of(p),
    {
        let mut lo: usize = 0;
        let mut hi: usize = self.points.len();
        while lo < hi
            invariant
                lo <= hi <= self.points.len(),
                self.wf(),
                forall|i: int| 0 <= i < lo ==> p.spec_lt(#[trigger] self.points[i]),
                forall|i: int|
                    hi <= i < self.points.len() ==> (#[trigger] self.points[i]).spec_lt(p),
            decreases hi - lo,
        {
            let mid = lo + (hi - lo) / 2;
            let q = self.points[mid];
            if q == p {
                assert forall|j: int| 0 <= j < self.points.len() && self.points[j] == p implies j
                    == mid by {
                    if j < mid {
                        assert(self.points[mid as int].spec_lt(self.points[j]));
                    } else if j > mid {
                        assert(self.points[j].spec_lt(self.points[mid as int]));
                    }
                }
                return Some(mid);
            } else if p < q {
                assert forall|i: int| 0 <= i < mid + 1 implies p.spec_lt(
                    #[trigger] self.points[i],
                ) by {
                    if i < mid {
                        assert(self.points[mid as int].spec_lt(self.points[i]));
                    }
                }
                lo = mid + 1;
            } else {
                assert forall|i: int| mid <= i < self.points.len() implies (
                #[trigger] self.points[i]).spec_lt(p) by {
                    if i > mid {
                        assert(self.points[i].spec_lt(self.points[mid as int]));
                    }
                }
                hi = mid;
            }
        }
        assert(!self.points@.contains(p)) by {
            if self.points@.contains(p) {
                let j = choose|j: int| 0 <= j < self.points.len() && self.points[j] == p;
                assert(p.spec_lt(self.points[j]) || self.points[j].spec_lt(p));
            }
        }
        None
    }
}

/// With well-formed edges no half-edge occurs twice.
pub proof fn lemma_half_edges_distinct(edges: Seq<Segment>)
    requires
        forall|i: int| 0 <= i < edges.len() ==> (#[trigger] edges[i]).wf(),
        edges.len() <= usize::MAX,
    ensures
        half_edges_of(edges).no_duplicates(),
{
    let h = half_edges_of(edges);
    assert forall|a: int, b: int| 0 <= a < h.len() && 0 <= b < h.len() && a != b implies h[a]
        != h[b] by {
        if a / 2 == b / 2 {
            assert(edges[a / 2].wf());
        }
    }
}

/// The half-edge `x` has its entry in the list of its point.
spec fn placed(points: Seq<Point>, infos: Seq<Vec<PointEdgeInfo>>, x: HalfEdge) -> bool {
    exists|g: int|
        0 <= g < points.len() && #[trigger] points[g] == x.point && infos[g]@.contains(info_of(x))
}

/// The entry `info` in the list of `p` stands for one of the first `k`
/// half-edges.
spec fn comes_from(sorted_edges: Seq<HalfEdge>, k: int, p: Point, info: PointEdgeInfo) -> bool {
    exists|m: int|
        0 <= m < k && #[trigger] sorted_edges[m] == (HalfEdge {
            point: p,
            opposite: info.opposite_point,
            index: info.edge_index,
        })
}

/// The first `k` half-edges of the sorted list have been put into groups.
spec fn grouped(
    sorted_edges: Seq<HalfEdge>,
    k: int,
    points: Seq<Point>,
    infos: Seq<Vec<PointEdgeInfo>>,
) -> bool {
    &&& points.len() == infos.len()
    &&& forall|m: int| 0 <= m < k ==> placed(points, infos, #[trigger] sorted_edges[m])
    &&& forall|g: int, j: int|
        0 <= g < points.len() && 0 <= j < infos[g].len() ==> comes_from(
            sorted_edges,
            k,
            points[g],
            #[trigger] infos[g]@[j],
        )
    &&& forall|g: int| 0 <= g < infos.len() ==> (#[trigger] infos[g]).len() >= 1
    &&& forall|g1: int, g2: int|
        0 <= g1 < g2 < points.len() ==> (#[trigger] points[g2]).spec_lt(#[trigger] points[g1])
    &&& k > 0 ==> points.len() > 0 && points.last() == sorted_edges[k - 1].point
    &&& k == 0 ==> points.len() == 0
    &&& forall|g: int, a: int, b: int|
        0 <= g < infos.len() && 0 <= a < b < infos[g].len() ==> (#[trigger] infos[g]@[a]).spec_before(
            #[trigger] infos[g]@[b],
        )
}

/// Once all half-edges of well-formed edges are grouped, the groups describe
/// the edges.
proof fn lemma_grouped_describes(
    edges: Seq<Segment>,
    sorted_edges: Seq<HalfEdge>,
    r: PointToEdges,
)
    requires
        forall|i: int| 0 <= i < edges.len() ==> (#[trigger] edges[i]).wf(),
        edges.len() <= usize::MAX,
        sorted_edges.to_multiset() == half_edges_of(edges).to_multiset(),
        grouped(sorted_edges, sorted_edges.len() as int, r.points@, r.infos@),
    ensures
        r.describes(edges),
{
    broadcast use group_to_multiset_ensures;

    let h = half_edges_of(edges);
    let n = sorted_edges.len() as int;
    assert forall|x: HalfEdge| sorted_edges.contains(x) <==> h.contains(x) by {
        assert(sorted_edges.to_multiset().count(x) == h.to_multiset().count(x));
    }
    // every sorted half-edge is a half-edge of an edge
    assert forall|m: int| 0 <= m < n implies {
        &&& (#[trigger] sorted_edges[m]).index < edges.len()
        &&& edges[sorted_edges[m].index as int].has_endpoint(sorted_edges[m].point)
        &&& edges[sorted_edges[m].index as int].has_endpoint(sorted_edges[m].opposite)
        &&& sorted_edges[m].opposite != sorted_edges[m].point
    } by {
        let x = sorted_edges[m];
        assert(sorted_edges.contains(x));
        let k = choose|k: int| 0 <= k < h.len() && h[k] == x;
        assert(edges[k / 2].wf());
    }
    assert forall|p: Point| r.points@.contains(p) <==> exists|i: int|
        0 <= i < edges.len() && (#[trigger] edges[i]).has_endpoint(p) by {
        if r.points@.contains(p) {
            let g = choose|g: int| 0 <= g < r.points.len() && r.points[g] == p;
            assert(r.infos[g].len() >= 1);
            assert(comes_from(sorted_edges, n, r.points[g], r.infos[g]@[0]));
            let m = choose|m: int|
                0 <= m < n && #[trigger] sorted_edges[m] == (HalfEdge {
                    point: r.points[g],
                    opposite: r.infos[g]@[0].opposite_point,
                    index: r.infos[g]@[0].edge_index,
                });
            assert(edges[sorted_edges[m].index as int].has_endpoint(p));
        }
        if exists|i: int| 0 <= i < edges.len() && (#[trigger] edges[i]).has_endpoint(p) {
            let i = choose|i: int| 0 <= i < edges.len() && (#[trigger] edges[i]).has_endpoint(p);
            let k = if edges[i].bottom == p {
                2 * i
            } else {
                2 * i + 1
            };
            assert(h[k].point == p);
            assert(h.contains(h[k]));
            let m = choose|m: int| 0 <= m < n && sorted_edges[m] == h[k];
            assert(placed(r.points@, r.infos@, sorted_edges[m]));
            let g = choose|g: int|
                0 <= g < r.points.len() && #[trigger] r.points@[g] == sorted_edges[m].point
                    && r.infos@[g]@.contains(info_of(sorted_edges[m]));
            assert(r.points@[g] == p);
        }
    }
    assert forall|g: int| 0 <= g < r.points.len() implies incident_list(
        edges,
        #[trigger] r.points[g],
        r.infos[g]@,
    ) by {
        let p = r.points[g];
        let infos = r.infos[g]@;
        assert forall|k: int| 0 <= k < infos.len() implies {
            &&& (#[trigger] infos[k]).edge_index < edges.len()
            &&& edges[infos[k].edge_index as int].has_endpoint(p)
            &&& edges[infos[k].edge_index as int].has_endpoint(infos[k].opposite_point)
            &&& infos[k].opposite_point != p
        } by {
            assert(comes_from(sorted_edges, n, r.points[g], r.infos[g]@[k]));
            let m = choose|m: int|
                0 <= m < n && #[trigger] sorted_edges[m] == (HalfEdge {
                    point: r.points[g],
                    opposite: r.infos[g]@[k].opposite_point,
                    index: r.infos[g]@[k].edge_index,
                });
            assert(sorted_edges[m].index < edges.len());
        }
        assert forall|i: int| 0 <= i < edges.len() && (#[trigger] edges[i]).has_endpoint(
            p,
        ) implies exists|k: int| 0 <= k < infos.len() && (#[trigger] infos[k]).edge_index == i by {
            let k = if edges[i].bottom == p {
                2 * i
            } else {
                2 * i + 1
            };
            assert(h[k].point == p && h[k].index == i);
            assert(h.contains(h[k]));
            let m = choose|m: int| 0 <= m < n && sorted_edges[m] == h[k];
            assert(placed(r.points@, r.infos@, sorted_edges[m]));
            let g2 = choose|g2: int|
                0 <= g2 < r.points.len() && #[trigger] r.points@[g2] == sorted_edges[m].point
                    && r.infos@[g2]@.contains(info_of(sorted_edges[m]));
            if g2 < g {
                assert(r.points[g].spec_lt(r.points[g2]));
            } else if g < g2 {
                assert(r.points[g2].spec_lt(r.points[g]));
            }
            assert(g2 == g);
            let j = choose|j: int| 0 <= j < infos.len() && infos[j] == info_of(sorted_edges[m]);
            assert(infos[j].edge_index == i);
        }
    }
    assert forall|i: int, k: int|
        0 <= i < r.infos.len() && 0 <= k < r.infos[i].len() implies (
    #[trigger] r.infos[i]@[k]).opposite_point != r.points[i] by {
        assert(incident_list(edges, r.points[i], r.infos[i]@));
    }
}

/// In the list of a point no edge is named twice.
pub proof fn lemma_incident_distinct(
    edges: Seq<Segment>,
    p: Point,
    infos: Seq<PointEdgeInfo>,
    j: int,
    k: int,
)
    requires
        forall|i: int| 0 <= i < edges.len() ==> (#[trigger] edges[i]).wf(),
        incident_list(edges, p, infos),
        0 <= j < infos.len(),
        0 <= k < infos.len(),
        j != k,
    ensures
        infos[j].edge_index != infos[k].edge_index,
{
    if infos[j].edge_index == infos[k].edge_index {
        let e = edges[infos[j].edge_index as int];
        assert(e.wf());
        assert(infos[j].opposite_point == infos[k].opposite_point);
        if j < k {
            assert(infos[j].spec_before(infos[k]));
        } else {
            assert(infos[k].spec_before(infos[j]));
        }
    }
}

/// Two strictly descending lists of the same points are one list.
pub proof fn lemma_descending_unique(a: Seq<Point>, b: Seq<Point>)
    requires
        forall|i: int, j: int| 0 <= i < j < a.len() ==> (#[trigger] a[j]).spec_lt(#[trigger] a[i]),
        forall|i: int, j: int| 0 <= i < j < b.len() ==> (#[trigger] b[j]).spec_lt(#[trigger] b[i]),
        forall|p: Point| a.contains(p) <==> b.contains(p),
    ensures
        a == b,
    decreases a.len(),
{
    if a.len() == 0 {
        if b.len() > 0 {
            assert(b.contains(b[0]));
        }
        assert(a =~= b);
    } else {
        let x = a.last();
        assert(a.contains(x));
        let j = choose|j: int| 0 <= j < b.len() && b[j] == x;
        let y = b.last();
        assert(b.contains(y));
        let i = choose|i: int| 0 <= i < a.len() && a[i] == y;
        if j < b.len() - 1 {
            assert(b[b.len() - 1].spec_lt(b[j]));
            if i < a.len() - 1 {
                assert(a[a.len() - 1].spec_lt(a[i]));
            }
        }
        assert(x == y);
        let a0 = a.drop_last();
        let b0 = b.drop_last();
        assert forall|p: Point| a0.contains(p) <==> b0.contains(p) by {
            if a0.contains(p) {
                let k = choose|k: int| 0 <= k < a0.len() && a0[k] == p;
                assert(a[k] == p);
                assert(a[a.len() - 1].spec_lt(a[k]));
                assert(a.contains(p));
                let m = choose|m: int| 0 <= m < b.len() && b[m] == p;
                assert(b0[m] == p);
            }
            if b0.contains(p) {
                let k = choose|k: int| 0 <= k < b0.len() && b0[k] == p;
                assert(b[k] == p);
                assert(b[b.len() - 1].spec_lt(b[k]));
                assert(b.contains(p));
                let m = choose|m: int| 0 <= m < a.len() && a[m] == p;
                assert(a0[m] == p);
            }
        }
        assert forall|i: int, j: int| 0 <= i < j < a0.len() implies (#[trigger] a0[j]).spec_lt(
            #[trigger] a0[i],
        ) by {
            assert(a[j].spec_lt(a[i]));
        }
        assert forall|i: int, j: int| 0 <= i < j < b0.len() implies (#[trigger] b0[j]).spec_lt(
            #[trigger] b0[i],
        ) by {
            assert(b[j].spec_lt(b[i]));
        }
        lemma_descending_unique(a0, b0);
        assert(a =~= a0.push(x));
        assert(b =~= b0.push(y));
    }
}

/// Two lists of the same entries that both stand in order are one list.
pub proof fn lemma_ordered_unique(a: Seq<PointEdgeInfo>, b: Seq<PointEdgeInfo>)
    requires
        forall|i: int, j: int|
            0 <= i < j < a.len() ==> (#[trigger] a[i]).spec_before(#[trigger] a[j]),
        forall|i: int, j: int|
            0 <= i < j < b.len() ==> (#[trigger] b[i]).spec_before(#[trigger] b[j]),
        forall|x: PointEdgeInfo| a.contains(x) <==> b.contains(x),
    ensures
        a == b,
    decreases a.len(),
{
    if a.len() == 0 {
        if b.len() > 0 {
            assert(b.contains(b[0]));
        }
        assert(a =~= b);
    } else {
        let x = a.last();
        assert(a.contains(x));
        let j = choose|j: int| 0 <= j < b.len() && b[j] == x;
        let y = b.last();
        assert(b.contains(y));
        let i = choose|i: int| 0 <= i < a.len() && a[i] == y;
        if j < b.len() - 1 {
            assert(b[j].spec_before(b[b.len() - 1]));
            if i < a.len() - 1 {
                assert(a[i].spec_before(a[a.len() - 1]));
            }
        }
        assert(x == y);
        let a0 = a.drop_last();
        let b0 = b.drop_last();
        assert forall|p: PointEdgeInfo| a0.contains(p) <==> b0.contains(p) by {
            if a0.contains(p) {
                let k = choose|k: int| 0 <= k < a0.len() && a0[k] == p;
                assert(a[k] == p);
                assert(a[k].spec_before(a[a.len() - 1]));
                assert(a.contains(p));
                let m = choose|m: int| 0 <= m < b.len() && b[m] == p;
                assert(b0[m] == p);
            }
            if b0.contains(p) {
                let k = choose|k: int| 0 <= k < b0.len() && b0[k] == p;
                assert(b[k] == p);
                assert(b[k].spec_before(b[b.len() - 1]));
                assert(b.contains(p));
                let m = choose|m: int| 0 <= m < a.len() && a[m] == p;
                assert(a0[m] == p);
            }
        }
        assert forall|i: int, j: int| 0 <= i < j < a0.len() implies (#[trigger] a0[i]).spec_before(
            #[trigger] a0[j],
        ) by {
            assert(a[i].spec_before(a[j]));
        }
        assert forall|i: int, j: int| 0 <= i < j < b0.len() implies (#[trigger] b0[i]).spec_before(
            #[trigger] b0[j],
        ) by {
            assert(b[i].spec_before(b[j]));
        }
        lemma_ordered_unique(a0, b0);
        assert(a =~= a0.push(x));
        assert(b =~= b0.push(y));
    }
}

/// The list of the edges that meet in a point is determined by the edges.
pub proof fn lemma_incident_unique(
    edges: Seq<Segment>,
    p: Point,
    a: Seq<PointEdgeInfo>,
    b: Seq<PointEdgeInfo>,
)
    requires
        forall|i: int| 0 <= i < edges.len() ==> (#[trigger] edges[i]).wf(),
        incident_list(edges, p, a),
        incident_list(edges, p, b),
    ensures
        a == b,
{
    assert forall|x: PointEdgeInfo| a.contains(x) implies b.contains(x) by {
        let k = choose|k: int| 0 <= k < a.len() && a[k] == x;
        let i = a[k].edge_index as int;
        assert(edges[i].wf() && edges[i].has_endpoint(p));
        let m = choose|m: int| 0 <= m < b.len() && (#[trigger] b[m]).edge_index == i;
        assert(b[m].opposite_point == x.opposite_point);
        assert(b[m] == x);
    }
    assert forall|x: PointEdgeInfo| b.contains(x) implies a.contains(x) by {
        let k = choose|k: int| 0 <= k < b.len() && b[k] == x;
        let i = b[k].edge_index as int;
        assert(edges[i].wf() && edges[i].has_endpoint(p));
        let m = choose|m: int| 0 <= m < a.len() && (#[trigger] a[m]).edge_index == i;
        assert(a[m].opposite_point == x.opposite_point);
        assert(a[m] == x);
    }
    lemma_ordered_unique(a, b);
}

/// The endpoints of a set of edges and their lists are determined by the
/// edges: two descriptions of the same edges hold the same.
pub proof fn lemma_describes_unique(a: PointToEdges, b: PointToEdges, edges: Seq<Segment>)
    requires
        forall|i: int| 0 <= i < edges.len() ==> (#[trigger] edges[i]).wf(),
        a.describes(edges),
        b.describes(edges),
    ensures
        a.same_as(b),
{
    lemma_descending_unique(a.points@, b.points@);
    assert forall|k: int| 0 <= k < a.infos.len() implies (#[trigger] a.infos[k])@ == b.infos[k]@ by {
        assert(incident_list(edges, a.points[k], a.infos[k]@));
        assert(incident_list(edges, b.points[k], b.infos[k]@));
        lemma_incident_unique(edges, a.points[k], a.infos[k]@, b.infos[k]@);
    }
}

/// For each endpoint of the edges its list of edges, the endpoints from the
/// highest down, and each list from the edge towards the highest opposite
/// point down.
pub fn get_points_edges(edges: &[Segment]) -> (r: PointToEdges)
    requires
        forall|i: int| 0 <= i < edges.len() ==> (#[trigger] edges[i]).wf(),
    ensures
        r.describes(edges@),
{
    let mut h: Vec<HalfEdge> = Vec::new();
    let mut i: usize = 0;
    while i < edges.len()
        invariant
            i <= edges.len(),
                h.len() == 2 * i,
            forall|k: int| 0 <= k < h.len() ==> h@[k] == half_edges_of(edges@)[k],
        decreases edges.len() - i,
    {
        let e = edges[i];
        h.push(HalfEdge { point: e.bottom, opposite: e.top, index: i });
        h.push(HalfEdge { point: e.top, opposite: e.bottom, index: i });
        i += 1;
    }
    assert(h@ =~= half_edges_of(edges@));
    let sorted_edges = sort_half_edges(&h);
    proof {
        lemma_half_edges_distinct(edges@);
        h@.lemma_multiset_has_no_duplicates();
        sorted_edges@.lemma_multiset_has_no_duplicates_conv();
    }
    let mut points: Vec<Point> = Vec::new();
    let mut infos: Vec<Vec<PointEdgeInfo>> = Vec::new();
    let mut k: usize = 0;
    while k < sorted_edges.len()
        invariant
            k <= sorted_edges.len(),
            sorted(sorted_edges@),
            sorted_edges@.no_duplicates(),
            grouped(sorted_edges@, k as int, points@, infos@),
            0 < k < sorted_edges.len() ==> sorted_edges@[k as int].point != sorted_edges@[k
                - 1].point,
        decreases sorted_edges.len() - k,
    {
        let p = sorted_edges[k].point;
        let start = k;
        let mut group: Vec<PointEdgeInfo> = Vec::new();
        while k < sorted_edges.len() && sorted_edges[k].point == p
            invariant
                start <= k <= sorted_edges.len(),
                sorted(sorted_edges@),
                sorted_edges@.no_duplicates(),
                group.len() == k - start,
                start < sorted_edges.len(),
                p == sorted_edges@[start as int].point,
                grouped(sorted_edges@, start as int, points@, infos@),
                start > 0 ==> sorted_edges@[start as int].point != sorted_edges@[start - 1].point,
                forall|j: int|
                    0 <= j < group.len() ==> #[trigger] group@[j] == info_of(
                        sorted_edges@[start + j],
                    ),
                forall|m: int| start <= m < k ==> (#[trigger] sorted_edges@[m]).point == p,
            decreases sorted_edges.len() - k,
        {
            group.push(
                PointEdgeInfo {
                    edge_index: sorted_edges[k].index,
                    opposite_point: sorted_edges[k].opposite,
                },
            );
            k += 1;
        }
        let ghost old_points = points@;
        let ghost old_infos = infos@;
        proof {
            assert(k > start);
            // the new point lies below all points so far
            if start > 0 {
                lemma_before_order(
                    sorted_edges@[start - 1],
                    sorted_edges@[start as int],
                    sorted_edges@[start as int],
                );
                assert(!sorted_edges@[start as int].spec_before(sorted_edges@[start - 1]));
                assert(p.spec_lt(old_points.last()));
            }
            // the group stands in order
            assert forall|a: int, b: int| 0 <= a < b < group.len() implies (
            #[trigger] group@[a]).spec_before(#[trigger] group@[b]) by {
                let x = sorted_edges@[start + a];
                let y = sorted_edges@[start + b];
                assert(!y.spec_before(x));
                assert(x != y);
                lemma_before_order(x, y, y);
            }
        }
        points.push(p);
        infos.push(group);
        proof {
            let g_new = old_points.len() as int;
            assert forall|m: int| 0 <= m < k implies placed(
                points@,
                infos@,
                #[trigger] sorted_edges@[m],
            ) by {
                if m < start {
                    assert(placed(old_points, old_infos, sorted_edges@[m]));
                    let g = choose|g: int|
                        0 <= g < old_points.len() && #[trigger] old_points[g]
                            == sorted_edges@[m].point && old_infos[g]@.contains(
                            info_of(sorted_edges@[m]),
                        );
                    assert(points@[g] == old_points[g] && infos@[g] == old_infos[g]);
                } else {
                    assert(infos@[g_new]@[m - start] == info_of(sorted_edges@[m]));
                    assert(points@[g_new] == p);
                }
            }
            assert forall|g: int, j: int|
                0 <= g < points.len() && 0 <= j < infos@[g].len() implies comes_from(
                sorted_edges@,
                k as int,
                points@[g],
                #[trigger] infos@[g]@[j],
            ) by {
                if g < g_new {
                    assert(points@[g] == old_points[g] && infos@[g] == old_infos[g]);
                    assert(comes_from(sorted_edges@, start as int, old_points[g], old_infos[g]@[j]));
                    let m = choose|m: int|
                        0 <= m < start && #[trigger] sorted_edges@[m] == (HalfEdge {
                            point: old_points[g],
                            opposite: old_infos[g]@[j].opposite_point,
                            index: old_infos[g]@[j].edge_index,
                        });
                    assert(0 <= m < k);
                } else {
                    assert(sorted_edges@[start + j].point == p);
                    assert(group@[j] == info_of(sorted_edges@[start + j]));
                }
            }
            assert forall|g1: int, g2: int| 0 <= g1 < g2 < points.len() implies (
            #[trigger] points@[g2]).spec_lt(#[trigger] points@[g1]) by {
                if g2 == g_new {
                    assert(points@[g1] == old_points[g1]);
                    if g1 < g_new - 1 {
                        assert(old_points[g_new - 1].spec_lt(old_points[g1]));
                    }
                } else {
                    assert(points@[g1] == old_points[g1] && points@[g2] == old_points[g2]);
                }
            }
            assert forall|g: int, a: int, b: int|
                0 <= g < infos.len() && 0 <= a < b < infos@[g].len() implies (
            #[trigger] infos@[g]@[a]).spec_before(#[trigger] infos@[g]@[b]) by {
                if g < g_new {
                    assert(infos@[g] == old_infos[g]);
                }
            }
            assert forall|g: int| 0 <= g < infos.len() implies (#[trigger] infos@[g]).len()
                >= 1 by {
                if g < g_new {
                    assert(infos@[g] == old_infos[g]);
                }
            }
            assert(sorted_edges@[k - 1].point == p);
            assert(points@.last() == p);
        }
    }
    let r = PointToEdges { points, infos };
    proof {
        lemma_grouped_describes(edges@, sorted_edges@, r);
    }
    r
}

/// Of two segments with one upper end the left one, then the right one: where
/// the turn from the lower end of `s1` over the common end to the lower end of
/// `s2` is counter-clockwise, `s2` is the left one.
pub open spec fn spec_left_right_edges_top(s1: Segment, s2: Segment) -> (Segment, Segment) {
    if spec_orientation(s1.bottom, s1.top, s2.bottom) == Orientation::CounterClockwise {
        (s2, s1)
    } else {
        (s1, s2)
    }
}

/// Of two segments with one lower end the left one, then the right one: where
/// the turn from the upper end of `s1` over the common end to the upper end of
/// `s2` is clockwise, `s2` is the left one.
pub open spec fn spec_left_right_edges_bottom(s1: Segment, s2: Segment) -> (Segment, Segment) {
    if spec_orientation(s1.top, s1.bottom, s2.top) == Orientation::Clockwise {
        (s2, s1)
    } else {
        (s1, s2)
    }
}

/// Of two segments with one upper end the left one, then the right one.
pub fn get_left_right_edges_top(s1: &Segment, s2: &Segment) -> (r: (Segment, Segment))
    ensures
        r == spec_left_right_edges_top(*s1, *s2),
{
    if orientation(s1.bottom, s1.top, s2.bottom) == Orientation::CounterClockwise {
        (*s2, *s1)
    } else {
        (*s1, *s2)
    }
}

/// Of two segments with one lower end the left one, then the right one.
pub fn get_left_right_edges_bottom(s1: &Segment, s2: &Segment) -> (r: (Segment, Segment))
    ensures
        r == spec_left_right_edges_bottom(*s1, *s2),
{
    if orientation(s1.top, s1.bottom, s2.top) == Orientation::Clockwise {
        (*s2, *s1)
    } else {
        (*s1, *s2)
    }
}

/// Of two segments with one upper end, `s1` lies strictly left of `s2`.
pub open spec fn left_of_share_top(s1: Segment, s2: Segment) -> bool {
    spec_orientation(s1.bottom, s1.top, s2.bottom) == Orientation::Clockwise
}

/// Of two segments with one lower end, `s1` lies strictly left of `s2`.
pub open spec fn left_of_share_bottom(s1: Segment, s2: Segment) -> bool {
    spec_orientation(s1.top, s1.bottom, s2.top) == Orientation::CounterClockwise
}

/// Compares two segments with one upper end from left to right.
pub fn left_right_share_top(s1: &Segment, s2: &Segment) -> (o: Ordering)
    ensures
        (o == Ordering::Less) == left_of_share_top(*s1, *s2),
        (o == Ordering::Greater) == (spec_orientation(s1.bottom, s1.top, s2.bottom)
            == Orientation::CounterClockwise),
{
    match orientation(s1.bottom, s1.top, s2.bottom) {
        Orientation::Clockwise => Ordering::Less,
        Orientation::CounterClockwise => Ordering::Greater,
        Orientation::Collinear => Ordering::Equal,
    }
}

/// Compares two segments with one lower end from left to right.
pub fn left_right_share_bottom(s1: &Segment, s2: &Segment) -> (o: Ordering)
    ensures
        (o == Ordering::Less) == left_of_share_bottom(*s1, *s2),
        (o == Ordering::Greater) == (spec_orientation(s1.top, s1.bottom, s2.top)
            == Orientation::Clockwise),
{
    match orientation(s1.top, s1.bottom, s2.top) {
        Orientation::CounterClockwise => Ordering::Less,
        Orientation::Clockwise => Ordering::Greater,
        Orientation::Collinear => Ordering::Equal,
    }
}

/// `s1` lies strictly left of `s2`, for two segments with one upper end
/// where `share_top` holds, and else for two with one lower end.
pub open spec fn left_of(s1: Segment, s2: Segment, share_top: bool) -> bool {
    if share_top {
        left_of_share_top(s1, s2)
    } else {
        left_of_share_bottom(s1, s2)
    }
}

/// A list from left to right with `x` put in: `x` passes every segment at
/// the end of the list of which it lies strictly left.
pub open spec fn insert_from_left(sorted: Seq<Segment>, x: Segment, share_top: bool) -> Seq<
    Segment,
>
    decreases sorted.len(),
{
    if sorted.len() > 0 && left_of(x, sorted.last(), share_top) {
        insert_from_left(sorted.drop_last(), x, share_top).push(sorted.last())
    } else {
        sorted.push(x)
    }
}

/// The segments from left to right: each is put into the list of those before
/// it, so that segments of which neither lies left of the other keep their
/// order.
pub open spec fn spec_sort_segments(segments: Seq<Segment>, share_top: bool) -> Seq<Segment>
    decreases segments.len(),
{
    if segments.len() == 0 {
        segments
    } else {
        insert_from_left(
            spec_sort_segments(segments.drop_last(), share_top),
            segments.last(),
            share_top,
        )
    }
}

/// Putting a segment into a list keeps the others and adds one.
pub proof fn lemma_insert_from_left_len(sorted: Seq<Segment>, x: Segment, share_top: bool)
    ensures
        insert_from_left(sorted, x, share_top).len() == sorted.len() + 1,
    decreases sorted.len(),
{
    if sorted.len() > 0 && left_of(x, sorted.last(), share_top) {
        lemma_insert_from_left_len(sorted.drop_last(), x, share_top);
    }
}

/// The sorted list is as long as the list given.
pub proof fn lemma_sort_segments_len(segments: Seq<Segment>, share_top: bool)
    ensures
        spec_sort_segments(segments, share_top).len() == segments.len(),
    decreases segments.len(),
{
    if segments.len() > 0 {
        lemma_sort_segments_len(segments.drop_last(), share_top);
        lemma_insert_from_left_len(
            spec_sort_segments(segments.drop_last(), share_top),
            segments.last(),
            share_top,
        );
    }
}

/// Whether `s1` lies strictly left of `s2`.
fn is_left_of(s1: &Segment, s2: &Segment, share_top: bool) -> (r: bool)
    ensures
        r == left_of(*s1, *s2, share_top),
{
    if share_top {
        orientation(s1.bottom, s1.top, s2.bottom) == Orientation::Clockwise
    } else {
        orientation(s1.top, s1.bottom, s2.top) == Orientation::CounterClockwise
    }
}

/// Sorts segments with one common end from left to right.
pub fn sort_segments(segments: &Vec<Segment>, share_top: bool) -> (r: Vec<Segment>)
    ensures
        r@ == spec_sort_segments(segments@, share_top),
        r.len() == segments.len(),
{
    let mut r: Vec<Segment> = Vec::new();
    let mut k: usize = 0;
    assert(segments@.take(0) =~= Seq::empty());
    while k < segments.len()
        invariant
            k <= segments.len(),
            r.len() == k,
            r@ == spec_sort_segments(segments@.take(k as int), share_top),
        decreases segments.len() - k,
    {
        let x = segments[k];
        let ghost before = r@;
        let mut j: usize = r.len();
        proof {
            assert(before.take(j as int) == before);
            assert(before.skip(j as int) =~= Seq::empty());
            assert(insert_from_left(before, x, share_top) + Seq::empty() =~= insert_from_left(
                before,
                x,
                share_top,
            ));
        }
        while j > 0 && is_left_of(&x, &r[j - 1], share_top)
            invariant
                j <= r.len(),
                r@ == before,
                insert_from_left(before, x, share_top) == insert_from_left(
                    before.take(j as int),
                    x,
                    share_top,
                ) + before.skip(j as int),
            decreases j,
        {
            proof {
                let s = before.take(j as int);
                assert(s.drop_last() == before.take(j - 1));
                assert(s.last() == before[j - 1]);
                assert(insert_from_left(s.drop_last(), x, share_top).push(s.last())
                    + before.skip(j as int) =~= insert_from_left(s.drop_last(), x, share_top)
                    + before.skip(j - 1));
            }
            j -= 1;
        }
        proof {
            let s = before.take(j as int);
            if j > 0 {
                assert(s.last() == before[j - 1]);
            }
            assert(insert_from_left(s, x, share_top) == s.push(x));
        }
        r.insert(j, x);
        k += 1;
        proof {
            assert(segments@.take(k as int).drop_last() == segments@.take(k - 1));
            assert(r@ =~= before.take(j as int).push(x) + before.skip(j as int));
        }
    }
    assert(segments@.take(k as int) == segments@);
    r
}

/// The segments from `p` to the opposite points of a list.
pub open spec fn segments_at(p: Point, infos: Seq<PointEdgeInfo>) -> Seq<Segment> {
    infos.map_values(|e: PointEdgeInfo| Segment::spec_new(p, e.opposite_point))
}

/// The kind of event that `p` is, given the list of the edges that meet in it.
/// With two edges: a split where both opposite points come before `p`, a
/// merge where both come after it, and else a normal point. With any other
/// number of edges: an intersection.
pub open spec fn spec_point_type(p: Point, infos: Seq<PointEdgeInfo>) -> PointTypeView {
    let segments = segments_at(p, infos);
    if segments.len() != 2 {
        PointTypeView::Intersection(segments)
    } else if infos[0].opposite_point.spec_lt(p) && infos[1].opposite_point.spec_lt(p) {
        let (left, right) = spec_left_right_edges_top(segments[0], segments[1]);
        PointTypeView::Split(left, right)
    } else if p.spec_lt(infos[0].opposite_point) && p.spec_lt(infos[1].opposite_point) {
        let (left, right) = spec_left_right_edges_bottom(segments[0], segments[1]);
        PointTypeView::Merge(left, right)
    } else {
        PointTypeView::Normal(segments[0], segments[1])
    }
}

/// The kind of event that the point `p` of `point_to_edges` is. The point
/// must be one of the points, and its list must hold an entry.
pub fn get_point_type(p: Point, point_to_edges: &PointToEdges) -> (r: PointType)
    requires
        point_to_edges.wf(),
        point_to_edges.points@.contains(p),
        point_to_edges.spec_infos(p).len() >= 1,
    ensures
        r@ == spec_point_type(p, point_to_edges.spec_infos(p)),
{
    let g = point_to_edges.find(p).unwrap();
    let infos = &point_to_edges.infos[g];
    let mut segments: Vec<Segment> = Vec::new();
    let mut k: usize = 0;
    while k < infos.len()
        invariant
            k <= infos.len(),
            point_to_edges.wf(),
            g < point_to_edges.infos.len(),
            infos == point_to_edges.infos[g as int],
            point_to_edges.points[g as int] == p,
            segments@ == segments_at(p, infos@).take(k as int),
        decreases infos.len() - k,
    {
        assert(infos@[k as int].opposite_point != p);
        segments.push(Segment::new(p, infos[k].opposite_point));
        k += 1;
        assert(segments@ =~= segments_at(p, infos@).take(k as int));
    }
    assert(segments@ =~= segments_at(p, infos@));
    if segments.len() != 2 {
        return PointType::Intersection(segments);
    }
    let seg1 = segments[0];
    let seg2 = segments[1];
    if infos[0].opposite_point < p && infos[1].opposite_point < p {
        let (left, right) = get_left_right_edges_top(&seg1, &seg2);
        return PointType::Split(left, right);
    }
    if p < infos[0].opposite_point && p < infos[1].opposite_point {
        let (left, right) = get_left_right_edges_bottom(&seg1, &seg2);
        return PointType::Merge(left, right);
    }
    PointType::Normal(seg1, seg2)
}

} // verus!
