//! The triangles of the outline of a path: a strip over the vertices that the
//! joins of the path emit, two at a miter join or an end, three at a bevel
//! join. Also the corners of a path in the order in which the outline passes
//! them, and the triangles of several outlines over one list of vertices.
use crate::point::Triangle;
use vstd::prelude::*;

verus! {

/// How the outline turns at a point of the path.
#[derive(Debug, Clone, Copy, PartialEq, Eq, Structural, Hash)]
pub enum JoinKind {
    /// Two vertices, one on each side of the path: a miter join, or an end of
    /// an open path.
    Miter,
    /// Three vertices: a bevel join, with an extra triangle in the corner.
    Bevel,
}

impl JoinKind {
    /// How many vertices the join emits.
    pub open spec fn spec_vertices(self) -> nat {
        match self {
            JoinKind::Miter => 2,
            JoinKind::Bevel => 3,
        }
    }

    /// How many vertices the join emits.
    pub fn vertices(&self) -> (n: usize)
        ensures
            n == self.spec_vertices(),
    {
        match self {
            JoinKind::Miter => 2,
            JoinKind::Bevel => 3,
        }
    }
}

/// How many vertices the first `k` joins emit.
pub open spec fn vertices_before(joins: Seq<JoinKind>, k: int) -> nat
    decreases k,
{
    if k <= 0 {
        0
    } else {
        vertices_before(joins, k - 1) + joins[k - 1].spec_vertices()
    }
}

/// The triangles that a join adds whose first vertex has the number `from`:
/// at a bevel join the triangle in the corner, and, but at the first join, the
/// two triangles that connect the last two vertices before the join with its
/// first two.
pub open spec fn join_triangles(kind: JoinKind, from: nat) -> Seq<Triangle> {
    let corner = if kind == JoinKind::Bevel {
        seq![Triangle { x: from as usize, y: (from + 1) as usize, z: (from + 2) as usize }]
    } else {
        Seq::empty()
    };
    if from >= 2 {
        corner + seq![
            Triangle { x: (from - 2) as usize, y: (from - 1) as usize, z: from as usize },
            Triangle { x: (from - 1) as usize, y: from as usize, z: (from + 1) as usize },
        ]
    } else {
        corner
    }
}

/// The triangles of the first `k` joins.
pub open spec fn strip_before(joins: Seq<JoinKind>, k: int) -> Seq<Triangle>
    decreases k,
{
    if k <= 0 {
        Seq::empty()
    } else {
        strip_before(joins, k - 1) + join_triangles(joins[k - 1], vertices_before(joins, k - 1))
    }
}

/// The triangles of the outline of a path with the given joins.
pub open spec fn spec_strip(joins: Seq<JoinKind>) -> Seq<Triangle> {
    strip_before(joins, joins.len() as int)
}

/// The first `k` joins emit at least two vertices each and at most three.
pub proof fn lemma_vertices_bounds(joins: Seq<JoinKind>, k: int)
    requires
        0 <= k <= joins.len(),
    ensures
        2 * k <= vertices_before(joins, k) <= 3 * k,
    decreases k,
{
    if k > 0 {
        lemma_vertices_bounds(joins, k - 1);
    }
}

/// The outline of a path with at least one join has two triangles fewer than
/// vertices, and every triangle lies over vertices that the joins emit.
pub proof fn lemma_strip_size(joins: Seq<JoinKind>, k: int)
    requires
        1 <= k <= joins.len(),
        3 * joins.len() <= usize::MAX,
    ensures
        strip_before(joins, k).len() + 2 == vertices_before(joins, k),
        forall|i: int|
            0 <= i < strip_before(joins, k).len() ==> {
                &&& (#[trigger] strip_before(joins, k)[i]).x < vertices_before(joins, k)
                &&& strip_before(joins, k)[i].y < vertices_before(joins, k)
                &&& strip_before(joins, k)[i].z < vertices_before(joins, k)
            },
    decreases k,
{
    let from = vertices_before(joins, k - 1);
    let added = join_triangles(joins[k - 1], from);
    let before = strip_before(joins, k - 1);
    let now = strip_before(joins, k);
    lemma_vertices_bounds(joins, k - 1);
    lemma_vertices_bounds(joins, k);
    if k > 1 {
        lemma_strip_size(joins, k - 1);
    } else {
        assert(from == 0);
        assert(before.len() == 0);
    }
    assert forall|i: int| 0 <= i < now.len() implies {
        &&& (#[trigger] now[i]).x < vertices_before(joins, k)
        &&& now[i].y < vertices_before(joins, k)
        &&& now[i].z < vertices_before(joins, k)
    } by {
        if i < before.len() {
            assert(now[i] == before[i]);
        } else {
            assert(now[i] == added[i - before.len()]);
        }
    }
}

/// The triangles of the outline of a path: the joins emit their vertices one
/// after the other; each join but the first is connected with the one before
/// it by two triangles, and a bevel join has one more in its corner.
pub fn strip_triangles(joins: &[JoinKind]) -> (r: Vec<Triangle>)
    requires
        3 * joins.len() <= usize::MAX,
    ensures
        r@ == spec_strip(joins@),
        joins.len() >= 1 ==> r.len() + 2 == vertices_before(joins@, joins.len() as int),
{
    let mut r: Vec<Triangle> = Vec::new();
    let mut from: usize = 0;
    let mut k: usize = 0;
    while k < joins.len()
        invariant
            k <= joins.len(),
            3 * joins.len() <= usize::MAX,
            from == vertices_before(joins@, k as int),
            r@ == strip_before(joins@, k as int),
        decreases joins.len() - k,
    {
        proof {
            lemma_vertices_bounds(joins@, k as int);
            lemma_vertices_bounds(joins@, k + 1);
        }
        let kind = joins[k];
        if kind == JoinKind::Bevel {
            r.push(Triangle::new(from, from + 1, from + 2));
        }
        if from >= 2 {
            r.push(Triangle::new(from - 2, from - 1, from));
            r.push(Triangle::new(from - 1, from, from + 1));
        }
        assert(r@ =~= strip_before(joins@, k as int) + join_triangles(kind, from as nat));
        from = from + kind.vertices();
        k += 1;
    }
    proof {
        if joins.len() >= 1 {
            lemma_strip_size(joins@, joins.len() as int);
        }
    }
    r
}

/// A corner of the outline of a path, by the places of the point and of the
/// edges that meet in it. The edge with the number `i` leaves the point `i`.
#[derive(Debug, Clone, Copy, PartialEq, Eq, Structural, Hash)]
pub enum Corner {
    /// An end of an open path: the point, and the one edge at it.
    Cap { point: usize, edge: usize },
    /// A point where two edges meet: the point, the edge that arrives and the
    /// edge that leaves.
    Join { point: usize, before: usize, after: usize },
}

/// How many corners the outline of a path of `n` points passes: every point
/// once, and the first point of a closed path once more at the end.
pub open spec fn spec_corner_count(n: nat, closed: bool) -> nat {
    if closed {
        n + 1
    } else {
        n
    }
}

/// The `k`-th corner that the outline of a path of `n` points passes. An open
/// path has a cap at its first point with the first edge, a join at each point
/// between, and a cap at its last point with the last edge. A closed path has
/// a join at every point, the first with the edge that closes the path, and
/// ends with the join at the first point again.
pub open spec fn spec_corner(n: nat, closed: bool, k: int) -> Corner {
    if closed {
        if k == 0 || k == n {
            Corner::Join { point: 0, before: (n - 1) as usize, after: 0 }
        } else {
            Corner::Join { point: k as usize, before: (k - 1) as usize, after: k as usize }
        }
    } else {
        if k == 0 {
            Corner::Cap { point: 0, edge: 0 }
        } else if k == n - 1 {
            Corner::Cap { point: (n - 1) as usize, edge: (n - 2) as usize }
        } else {
            Corner::Join { point: k as usize, before: (k - 1) as usize, after: k as usize }
        }
    }
}

/// The corners that the outline of a path of `n` points passes, in order.
pub fn path_corners(n: usize, closed: bool) -> (r: Vec<Corner>)
    requires
        2 <= n < usize::MAX,
    ensures
        r.len() == spec_corner_count(n as nat, closed),
        forall|k: int| 0 <= k < r.len() ==> #[trigger] r[k] == spec_corner(n as nat, closed, k),
{
    let mut r: Vec<Corner> = Vec::new();
    if closed {
        r.push(Corner::Join { point: 0, before: n - 1, after: 0 });
    } else {
        r.push(Corner::Cap { point: 0, edge: 0 });
    }
    let mut k: usize = 1;
    while k < n - 1
        invariant
            1 <= k <= n - 1,
            r.len() == k,
            forall|i: int| 0 <= i < k ==> #[trigger] r[i] == spec_corner(n as nat, closed, i),
        decreases n - k,
    {
        r.push(Corner::Join { point: k, before: k - 1, after: k });
        k += 1;
    }
    if closed {
        r.push(Corner::Join { point: n - 1, before: n - 2, after: n - 1 });
        r.push(Corner::Join { point: 0, before: n - 1, after: 0 });
    } else {
        r.push(Corner::Cap { point: n - 1, edge: n - 2 });
    }
    r
}

/// The triangles with every number of a vertex raised by `shift`: the
/// triangles of an outline whose vertices follow `shift` others in one list.
pub fn shift_triangles(triangles: &[Triangle], shift: usize) -> (r: Vec<Triangle>)
    requires
        forall|i: int|
            0 <= i < triangles.len() ==> (#[trigger] triangles[i]).x + shift <= usize::MAX
                && triangles[i].y + shift <= usize::MAX && triangles[i].z + shift <= usize::MAX,
    ensures
        r.len() == triangles.len(),
        forall|i: int|
            0 <= i < r.len() ==> (#[trigger] r[i]).x == triangles[i].x + shift && r[i].y
                == triangles[i].y + shift && r[i].z == triangles[i].z + shift,
{
    let mut r: Vec<Triangle> = Vec::new();
    let mut k: usize = 0;
    while k < triangles.len()
        invariant
            k <= triangles.len(),
            r.len() == k,
            forall|i: int|
                0 <= i < triangles.len() ==> (#[trigger] triangles[i]).x + shift <= usize::MAX
                    && triangles[i].y + shift <= usize::MAX && triangles[i].z + shift
                    <= usize::MAX,
            forall|i: int|
                0 <= i < k ==> (#[trigger] r[i]).x == triangles[i].x + shift && r[i].y
                    == triangles[i].y + shift && r[i].z == triangles[i].z + shift,
        decreases triangles.len() - k,
    {
        let t = triangles[k];
        r.push(Triangle::new(t.x + shift, t.y + shift, t.z + shift));
        k += 1;
    }
    r
}

} // verus!
