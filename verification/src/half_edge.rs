//! Half-edges: an edge seen from one of its endpoints. Sorting them groups
//! the edges by endpoint, from the highest point down.
use crate::point::Point;
use vstd::prelude::*;
use vstd::seq_lib::*;

verus! {

/// The edge number `index`, seen from `point` towards `opposite`.
#[derive(Debug, Clone, Copy, PartialEq, Eq, Structural)]
pub struct HalfEdge {
    pub point: Point,
    pub opposite: Point,
    pub index: usize,
}

impl HalfEdge {
    /// `self` comes strictly before `other`: at a later point, or at the same
    /// point towards a later opposite point, or with both the same and a lower
    /// index.
    pub open spec fn spec_before(self, other: HalfEdge) -> bool {
        ||| other.point.spec_lt(self.point)
        ||| (self.point == other.point && other.opposite.spec_lt(self.opposite))
        ||| (self.point == other.point && self.opposite == other.opposite && self.index
            < other.index)
    }

    /// Whether `self` comes strictly before `other`.
    pub fn before(&self, other: &HalfEdge) -> (r: bool)
        ensures
            r == self.spec_before(*other),
    {
        if self.point != other.point {
            other.point < self.point
        } else if self.opposite != other.opposite {
            other.opposite < self.opposite
        } else {
            self.index < other.index
        }
    }
}

/// Every half-edge comes before all that follow it, or equals them.
pub open spec fn sorted(s: Seq<HalfEdge>) -> bool {
    forall|i: int, j: int| 0 <= i < j < s.len() ==> !(#[trigger] s[j]).spec_before(#[trigger] s[i])
}

/// The order of half-edges is total, strict and transitive.
pub proof fn lemma_before_order(a: HalfEdge, b: HalfEdge, c: HalfEdge)
    ensures
        a.spec_before(b) || b.spec_before(a) || a == b,
        !(a.spec_before(b) && b.spec_before(a)),
        a.spec_before(b) && b.spec_before(c) ==> a.spec_before(c),
        !b.spec_before(a) && !c.spec_before(b) ==> !c.spec_before(a),
{
}

/// Two sorted lists as one sorted list.
fn merge(a: &Vec<HalfEdge>, b: &Vec<HalfEdge>) -> (r: Vec<HalfEdge>)
    requires
        sorted(a@),
        sorted(b@),
        a.len() + b.len() <= usize::MAX,
    ensures
        sorted(r@),
        r@.to_multiset() == a@.to_multiset().add(b@.to_multiset()),
        r.len() == a.len() + b.len(),
{
    broadcast use group_to_multiset_ensures;

    let mut r: Vec<HalfEdge> = Vec::new();
    let mut i: usize = 0;
    let mut j: usize = 0;
    assert(a@.take(0) =~= Seq::empty());
    assert(b@.take(0) =~= Seq::empty());
    while i < a.len() || j < b.len()
        invariant
            i <= a.len(),
            j <= b.len(),
            r.len() == i + j,
            sorted(a@),
            sorted(b@),
            sorted(r@),
            r@.to_multiset() == a@.take(i as int).to_multiset().add(
                b@.take(j as int).to_multiset(),
            ),
            forall|k: int, l: int|
                0 <= k < r.len() && i <= l < a.len() ==> !(#[trigger] a@[l]).spec_before(
                    #[trigger] r@[k],
                ),
            forall|k: int, l: int|
                0 <= k < r.len() && j <= l < b.len() ==> !(#[trigger] b@[l]).spec_before(
                    #[trigger] r@[k],
                ),
        decreases a.len() - i + b.len() - j,
    {
        let take_b = if i >= a.len() {
            true
        } else if j >= b.len() {
            false
        } else {
            b[j].before(&a[i])
        };
        let ghost before = r@;
        if take_b {
            let x = b[j];
            r.push(x);
            proof {
                assert(b@.take(j + 1) =~= b@.take(j as int).push(x));
                assert forall|k: int, l: int|
                    0 <= k < r.len() && i <= l < a.len() implies !(#[trigger] a@[l]).spec_before(
                    #[trigger] r@[k],
                ) by {
                    if k == before.len() {
                        lemma_before_order(x, a@[i as int], a@[l]);
                    }
                }
                assert forall|k: int, l: int|
                    0 <= k < r.len() && j + 1 <= l < b.len() implies !(#[trigger] b@[l]).spec_before(
                    #[trigger] r@[k],
                ) by {}
                assert(r@ == before.push(x));
                to_multiset_build(before, x);
                to_multiset_build(b@.take(j as int), x);
                assert(r@.to_multiset() =~= a@.take(i as int).to_multiset().add(
                    b@.take(j + 1).to_multiset(),
                ));
            }
            j += 1;
        } else {
            let x = a[i];
            r.push(x);
            proof {
                assert(a@.take(i + 1) =~= a@.take(i as int).push(x));
                assert forall|k: int, l: int|
                    0 <= k < r.len() && j <= l < b.len() implies !(#[trigger] b@[l]).spec_before(
                    #[trigger] r@[k],
                ) by {
                    if k == before.len() {
                        lemma_before_order(x, b@[j as int], b@[l]);
                    }
                }
                assert forall|k: int, l: int|
                    0 <= k < r.len() && i + 1 <= l < a.len() implies !(#[trigger] a@[l]).spec_before(
                    #[trigger] r@[k],
                ) by {}
                assert(r@ == before.push(x));
                to_multiset_build(before, x);
                to_multiset_build(a@.take(i as int), x);
                assert(r@.to_multiset() =~= a@.take(i + 1).to_multiset().add(
                    b@.take(j as int).to_multiset(),
                ));
            }
            i += 1;
        }
    }
    assert(a@.take(a.len() as int) =~= a@);
    assert(b@.take(b.len() as int) =~= b@);
    r
}

/// The half-edges number `lo` up to `hi` in order.
fn sort_range(v: &Vec<HalfEdge>, lo: usize, hi: usize) -> (r: Vec<HalfEdge>)
    requires
        lo <= hi <= v.len(),
    ensures
        sorted(r@),
        r@.to_multiset() == v@.subrange(lo as int, hi as int).to_multiset(),
        r.len() == hi - lo,
    decreases hi - lo,
{
    broadcast use group_to_multiset_ensures;

    if hi - lo == 0 {
        let r: Vec<HalfEdge> = Vec::new();
        assert(v@.subrange(lo as int, hi as int) =~= r@);
        r
    } else if hi - lo == 1 {
        let mut r: Vec<HalfEdge> = Vec::new();
        r.push(v[lo]);
        assert(v@.subrange(lo as int, hi as int) =~= r@);
        r
    } else {
        let mid = lo + (hi - lo) / 2;
        let a = sort_range(v, lo, mid);
        let b = sort_range(v, mid, hi);
        proof {
            let s0 = v@.subrange(lo as int, mid as int);
            let s1 = v@.subrange(mid as int, hi as int);
            assert(v@.subrange(lo as int, hi as int) =~= s0 + s1);
            lemma_multiset_commutative(s0, s1);
        }
        merge(&a, &b)
    }
}

/// The half-edges in order: sorted, and each as often as it was given.
pub fn sort_half_edges(v: &Vec<HalfEdge>) -> (r: Vec<HalfEdge>)
    ensures
        sorted(r@),
        r@.to_multiset() == v@.to_multiset(),
        r.len() == v.len(),
{
    assert(v@.subrange(0, v.len() as int) =~= v@);
    sort_range(v, 0, v.len())
}

} // verus!
