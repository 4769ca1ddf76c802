//! Splitting a polygon whose boundary comes back to points that it has
//! visited into polygons that do not, along the edges that are left after
//! edges that occur twice have been taken out.
use crate::edges::{
    dedup_segments, no_repeated_point, occurs_odd, odd_in_order, polygon_edges,
    push_polygon_edges,
};
use crate::point::{Point, Segment};
use std::collections::{HashMap, HashSet};
use vstd::prelude::*;

verus! {

broadcast use vstd::std_specs::hash::group_hash_axioms;

/// A point of the polygon with the points to which its edges lead, whether a
/// walk has come by, and how many of its edges have been walked.
#[derive(Debug)]
pub struct GraphNode {
    pub point: Point,
    pub edges: Vec<Point>,
    pub visited: bool,
    pub sub_index: usize,
}

/// What a node holds, as mathematical values.
pub struct NodeView {
    pub point: Point,
    pub edges: Seq<Point>,
    pub visited: bool,
    pub sub_index: nat,
}

impl View for GraphNode {
    type V = NodeView;

    open spec fn view(&self) -> NodeView {
        NodeView {
            point: self.point,
            edges: self.edges@,
            visited: self.visited,
            sub_index: self.sub_index as nat,
        }
    }
}

/// The views of a list of nodes.
pub open spec fn node_views(nodes: Seq<GraphNode>) -> Seq<NodeView> {
    nodes.map_values(|n: GraphNode| n@)
}

/// The pairs of points of a polygon that follow each other, and the pair of
/// the last and the first point where the two differ.
pub open spec fn directed_pairs(polygon: Seq<Point>) -> Seq<(Point, Point)> {
    let open = Seq::new(
        if polygon.len() == 0 {
            0
        } else {
            (polygon.len() - 1) as nat
        },
        |i: int| (polygon[i], polygon[i + 1]),
    );
    if polygon.len() > 0 && polygon.last() != polygon[0] {
        open.push((polygon.last(), polygon[0]))
    } else {
        open
    }
}

/// Of a list of pairs those whose segment occurs an odd number of times in
/// `edges`.
pub open spec fn kept_pairs(pairs: Seq<(Point, Point)>, edges: Seq<Segment>) -> Seq<(Point, Point)>
    decreases pairs.len(),
{
    if pairs.len() == 0 {
        pairs
    } else if occurs_odd(edges, Segment::spec_new(pairs.last().0, pairs.last().1)) {
        kept_pairs(pairs.drop_last(), edges).push(pairs.last())
    } else {
        kept_pairs(pairs.drop_last(), edges)
    }
}

/// The number of the node of the point `p`, if it has one.
pub open spec fn node_of(nodes: Seq<NodeView>, p: Point) -> Option<int> {
    if exists|i: int| 0 <= i < nodes.len() && (#[trigger] nodes[i]).point == p {
        Some(choose|i: int| 0 <= i < nodes.len() && (#[trigger] nodes[i]).point == p)
    } else {
        None
    }
}

/// The graph with the edge from `u` to `v` added: at the end of the edges of
/// the node of `u`, which is made at the end of the nodes where `u` has none.
pub open spec fn add_pair(nodes: Seq<NodeView>, u: Point, v: Point) -> Seq<NodeView> {
    match node_of(nodes, u) {
        Some(i) => nodes.update(i, NodeView { edges: nodes[i].edges.push(v), ..nodes[i] }),
        None => nodes.push(NodeView { point: u, edges: seq![v], visited: false, sub_index: 0 }),
    }
}

/// The graph of a list of pairs: the nodes in the order in which their points
/// first begin a pair, each with its edges in the order of the pairs.
pub open spec fn build_graph(pairs: Seq<(Point, Point)>) -> Seq<NodeView>
    decreases pairs.len(),
{
    if pairs.len() == 0 {
        Seq::empty()
    } else {
        add_pair(build_graph(pairs.drop_last()), pairs.last().0, pairs.last().1)
    }
}

/// A walk from the node number `current` on, of at most `fuel` steps: each
/// step takes the next edge of the node that has not been walked, adds the
/// point to which it leads to the path, and goes on from the node of that
/// point, which it marks; the walk ends at a node without such an edge, and
/// at a point without a node. The result is the graph after the walk, and the
/// path.
pub open spec fn walk(nodes: Seq<NodeView>, current: int, path: Seq<Point>, fuel: nat) -> (
    Seq<NodeView>,
    Seq<Point>,
)
    decreases fuel,
{
    if fuel == 0 || current < 0 || current >= nodes.len() || nodes[current].sub_index
        >= nodes[current].edges.len() {
        (nodes, path)
    } else {
        let next = nodes[current].edges[nodes[current].sub_index as int];
        let advanced = nodes.update(
            current,
            NodeView { sub_index: nodes[current].sub_index + 1, ..nodes[current] },
        );
        match node_of(advanced, next) {
            Some(i) => walk(
                advanced.update(i, NodeView { visited: true, ..advanced[i] }),
                i,
                path.push(next),
                (fuel - 1) as nat,
            ),
            None => (advanced, path.push(next)),
        }
    }
}

/// The path without the points at its end that equal its first point; the
/// first point stays.
pub open spec fn strip(path: Seq<Point>) -> Seq<Point>
    decreases path.len(),
{
    if path.len() > 1 && path[0] == path.last() {
        strip(path.drop_last())
    } else {
        path
    }
}

/// The walks from the nodes number `start` up to `limit` that no walk has
/// come by, in the order of the nodes, each of at most `fuel` steps.
pub open spec fn walks_from(nodes: Seq<NodeView>, start: int, limit: int, fuel: nat) -> Seq<
    Seq<Point>,
>
    decreases limit - start,
{
    if start < 0 || start >= limit || start >= nodes.len() {
        Seq::empty()
    } else if nodes[start].visited {
        walks_from(nodes, start + 1, limit, fuel)
    } else {
        let marked = nodes.update(start, NodeView { visited: true, ..nodes[start] });
        let (after, path) = walk(marked, start, seq![nodes[start].point], fuel);
        seq![strip(path)] + walks_from(after, start + 1, limit, fuel)
    }
}

/// The polygons into which a polygon falls along the edges that it walks an
/// odd number of times: the walks through the graph of those edges, in which
/// no walk takes more steps than there are edges.
pub open spec fn spec_split(polygon: Seq<Point>) -> Seq<Seq<Point>> {
    let pairs = kept_pairs(directed_pairs(polygon), polygon_edges(polygon));
    let graph = build_graph(pairs);
    walks_from(graph, 0, graph.len() as int, pairs.len())
}

/// The table leads from the key of each node's point to the node, and to
/// nothing else.
spec fn graph_wf(nodes: Seq<GraphNode>, table: Map<u64, usize>) -> bool {
    &&& forall|i: int|
        0 <= i < nodes.len() ==> table.contains_key((#[trigger] nodes[i]).point.spec_key())
            && table[nodes[i].point.spec_key()] == i
    &&& forall|k: u64| #[trigger]
        table.contains_key(k) ==> table[k] < nodes.len() && nodes[table[k] as int].point.spec_key()
            == k
    &&& forall|i: int|
        0 <= i < nodes.len() ==> (#[trigger] nodes[i]).sub_index <= nodes[i].edges.len()
}

/// With a table that fits the nodes, the node of a point is the one that the
/// table names for the key of the point.
proof fn lemma_node_of(nodes: Seq<GraphNode>, table: Map<u64, usize>, p: Point)
    requires
        graph_wf(nodes, table),
    ensures
        node_of(node_views(nodes), p) == if table.contains_key(p.spec_key()) {
            Some(table[p.spec_key()] as int)
        } else {
            None::<int>
        },
{
    let views = node_views(nodes);
    if table.contains_key(p.spec_key()) {
        let i = table[p.spec_key()] as int;
        p.lemma_key_order(nodes[i].point);
        assert(views[i].point == p);
        let j = choose|j: int| 0 <= j < views.len() && (#[trigger] views[j]).point == p;
        assert(nodes[j].point == p);
    } else {
        if exists|i: int| 0 <= i < views.len() && (#[trigger] views[i]).point == p {
            let i = choose|i: int| 0 <= i < views.len() && (#[trigger] views[i]).point == p;
            assert(nodes[i].point == p);
        }
    }
}

/// Adds the edge from `u` to `v` to the graph.
fn add_edge(nodes: &mut Vec<GraphNode>, table: &mut HashMap<u64, usize>, u: Point, v: Point)
    requires
        graph_wf(old(nodes)@, old(table)@),
    ensures
        graph_wf(final(nodes)@, final(table)@),
        node_views(final(nodes)@) == add_pair(node_views(old(nodes)@), u, v),
{
    proof {
        lemma_node_of(nodes@, table@, u);
    }
    let key = u.key();
    let found = match table.get(&key) {
        Some(i) => Some(*i),
        None => None,
    };
    match found {
        Some(i) => {
            nodes[i].edges.push(v);
            assert(node_views(nodes@) =~= add_pair(node_views(old(nodes)@), u, v));
            assert forall|j: int| 0 <= j < nodes.len() implies table@.contains_key(
                (#[trigger] nodes@[j]).point.spec_key(),
            ) && table@[nodes@[j].point.spec_key()] == j by {
                assert(nodes@[j].point == old(nodes)@[j].point);
            }
        },
        None => {
            let n = nodes.len();
            let mut edges: Vec<Point> = Vec::new();
            edges.push(v);
            nodes.push(GraphNode { point: u, edges, visited: false, sub_index: 0 });
            table.insert(key, n);
            assert(node_views(nodes@) =~= add_pair(node_views(old(nodes)@), u, v));
            assert forall|j: int| 0 <= j < nodes.len() implies table@.contains_key(
                (#[trigger] nodes@[j]).point.spec_key(),
            ) && table@[nodes@[j].point.spec_key()] == j by {
                if j < n {
                    assert(nodes@[j] == old(nodes)@[j]);
                }
            }
            assert forall|k: u64| #[trigger] table@.contains_key(k) implies table@[k] < nodes.len()
                && nodes@[table@[k] as int].point.spec_key() == k by {
                if k != key {
                    assert(old(table)@.contains_key(k));
                    assert(nodes@[table@[k] as int] == old(nodes)@[table@[k] as int]);
                }
            }
        },
    }
}

/// Adds the edge from `u` to `v` to the graph where its segment is among
/// the edges that are left.
fn add_if_kept(
    nodes: &mut Vec<GraphNode>,
    table: &mut HashMap<u64, usize>,
    edges_set: &HashSet<u128>,
    u: Point,
    v: Point,
) -> (kept: bool)
    requires
        graph_wf(old(nodes)@, old(table)@),
        u != v,
    ensures
        graph_wf(final(nodes)@, final(table)@),
        kept == edges_set@.contains(Segment::spec_new(u, v).spec_key()),
        node_views(final(nodes)@) == if kept {
            add_pair(node_views(old(nodes)@), u, v)
        } else {
            node_views(old(nodes)@)
        },
{
    let segment = Segment::new(u, v);
    if edges_set.contains(&segment.key()) {
        add_edge(nodes, table, u, v);
        true
    } else {
        false
    }
}

/// Walks from the node number `start` on, at most `fuel` steps: the path.
fn walk_from(
    nodes: &mut Vec<GraphNode>,
    table: &HashMap<u64, usize>,
    start: usize,
    fuel: usize,
) -> (path: Vec<Point>)
    requires
        graph_wf(old(nodes)@, table@),
        start < old(nodes).len(),
    ensures
        graph_wf(final(nodes)@, table@),
        final(nodes).len() == old(nodes).len(),
        (node_views(final(nodes)@), path@) == walk(
            node_views(old(nodes)@),
            start as int,
            seq![old(nodes)[start as int].point],
            fuel as nat,
        ),
        path.len() >= 1,
        old(nodes)[start as int].visited ==> final(nodes)[start as int].visited,
        forall|i: int|
            0 <= i < final(nodes).len() ==> (#[trigger] final(nodes)[i]).point == old(nodes)[i].point,
{
    let mut path: Vec<Point> = Vec::new();
    path.push(nodes[start].point);
    let mut current: usize = start;
    let mut left: usize = fuel;
    let ghost goal = walk(
        node_views(nodes@),
        start as int,
        seq![nodes[start as int].point],
        fuel as nat,
    );
    assert(path@ =~= seq![nodes[start as int].point]);
    let mut going = true;
    while going
        invariant
            graph_wf(nodes@, table@),
            nodes.len() == old(nodes).len(),
            current < nodes.len(),
            start < nodes.len(),
            path.len() >= 1,
            old(nodes)[start as int].visited ==> nodes[start as int].visited,
            forall|i: int| 0 <= i < nodes.len() ==> (#[trigger] nodes[i]).point == old(nodes)[i].point,
            going ==> walk(node_views(nodes@), current as int, path@, left as nat) == goal,
            !going ==> (node_views(nodes@), path@) == goal,
        decreases left, (if going { 1int } else { 0int }),
    {
        if left == 0 || nodes[current].sub_index >= nodes[current].edges.len() {
            going = false;
        } else {
            let ghost before = nodes@;
            let sub = nodes[current].sub_index;
            let next = nodes[current].edges[sub];
            nodes[current].sub_index = sub + 1;
            let ghost advanced = nodes@;
            proof {
                assert(node_views(advanced) =~= node_views(before).update(
                    current as int,
                    NodeView {
                        sub_index: node_views(before)[current as int].sub_index + 1,
                        ..node_views(before)[current as int]
                    },
                ));
                assert forall|i: int| 0 <= i < advanced.len() implies table@.contains_key(
                    (#[trigger] advanced[i]).point.spec_key(),
                ) && table@[advanced[i].point.spec_key()] == i by {
                    assert(advanced[i].point == before[i].point);
                }
                assert(graph_wf(advanced, table@));
                lemma_node_of(advanced, table@, next);
            }
            path.push(next);
            let key = next.key();
            match table.get(&key) {
                Some(i) => {
                    let i: usize = *i;
                    nodes[i].visited = true;
                    proof {
                        assert(node_views(nodes@) =~= node_views(advanced).update(
                            i as int,
                            NodeView { visited: true, ..node_views(advanced)[i as int] },
                        ));
                        assert forall|j: int| 0 <= j < nodes.len() implies table@.contains_key(
                            (#[trigger] nodes@[j]).point.spec_key(),
                        ) && table@[nodes@[j].point.spec_key()] == j by {
                            assert(nodes@[j].point == advanced[j].point);
                        }
                    }
                    current = i;
                    left = left - 1;
                },
                None => {
                    going = false;
                },
            }
        }
    }
    path
}

/// Takes the points at the end of the path that equal its first point off.
fn strip_path(path: &mut Vec<Point>)
    requires
        old(path).len() >= 1,
    ensures
        final(path)@ == strip(old(path)@),
        final(path).len() >= 1,
{
    while path.len() > 1 && path[0] == path[path.len() - 1]
        invariant
            path.len() >= 1,
            strip(path@) == strip(old(path)@),
        decreases path.len(),
    {
        path.pop();
    }
}

/// Splits a polygon along the edges that it walks twice: the polygons into
/// which it falls, and its edges that are left after those that occur an even
/// number of times have been taken out.
///
/// The edges that are left make a graph: each point at which such an edge
/// begins, in the direction of the polygon, is a node, in the order in which
/// those points first come. From each node that no walk has come by, in that
/// order, a walk follows the edges, at each node the next one that has not
/// been walked, until it reaches a node without such an edge or a point
/// without a node. Each walk gives a polygon, without the points at its end
/// that repeat its first point.
pub fn split_polygon_on_repeated_edges(polygon: &[Point]) -> (r: (Vec<Vec<Point>>, Vec<Segment>))
    requires
        no_repeated_point(polygon@),
    ensures
        crate::edges::point_lists(r.0@) == spec_split(polygon@),
        r.1@ == odd_in_order(polygon_edges(polygon@)),
        forall|i: int| 0 <= i < r.0.len() ==> (#[trigger] r.0[i]).len() >= 1,
{
    let mut all: Vec<Segment> = Vec::new();
    push_polygon_edges(&mut all, polygon);
    assert(all@ =~= polygon_edges(polygon@));
    let edges_dedup = dedup_segments(&all);
    let mut edges_set: HashSet<u128> = HashSet::new();
    let mut k: usize = 0;
    while k < edges_dedup.len()
        invariant
            k <= edges_dedup.len(),
            forall|s: Segment|
                edges_set@.contains(#[trigger] s.spec_key()) <==> edges_dedup@.take(
                    k as int,
                ).contains(s),
        decreases edges_dedup.len() - k,
    {
        let e = edges_dedup[k];
        edges_set.insert(e.key());
        k += 1;
        proof {
            let now = edges_dedup@.take(k as int);
            let seen = edges_dedup@.take(k - 1);
            assert(now =~= seen.push(e));
            assert forall|s: Segment|
                edges_set@.contains(#[trigger] s.spec_key()) <==> now.contains(s) by {
                s.lemma_key_injective(e);
                if seen.contains(s) {
                    let i = choose|i: int| 0 <= i < seen.len() && seen[i] == s;
                    assert(now[i] == s);
                }
                if s == e {
                    assert(now[k - 1] == s);
                }
                if now.contains(s) {
                    let i = choose|i: int| 0 <= i < now.len() && now[i] == s;
                    if i < k - 1 {
                        assert(seen[i] == s);
                    }
                }
            }
        }
    }
    assert(edges_dedup@.take(k as int) =~= edges_dedup@);
    let ghost pairs = directed_pairs(polygon@);
    let mut nodes: Vec<GraphNode> = Vec::new();
    let mut table: HashMap<u64, usize> = HashMap::new();
    let mut kept: usize = 0;
    let n = polygon.len();
    let mut i: usize = 0;
    assert(pairs.take(0) =~= Seq::empty());
    assert(node_views(nodes@) =~= build_graph(kept_pairs(pairs.take(0), all@)));
    let closing = n > 0 && polygon[n - 1] != polygon[0];
    let count: usize = if n == 0 {
        0
    } else if closing {
        n
    } else {
        n - 1
    };
    assert(pairs.len() == count);
    while i < count
        invariant
            i <= count,
            count == pairs.len(),
            pairs == directed_pairs(polygon@),
            n == polygon.len(),
            count <= n,
            closing == (n > 0 && polygon[n - 1] != polygon[0]),
            no_repeated_point(polygon@),
            all@ == polygon_edges(polygon@),
            forall|s: Segment|
                edges_set@.contains(#[trigger] s.spec_key()) <==> occurs_odd(all@, s),
            graph_wf(nodes@, table@),
            kept == kept_pairs(pairs.take(i as int), all@).len(),
            kept <= i,
            node_views(nodes@) == build_graph(kept_pairs(pairs.take(i as int), all@)),
        decreases count - i,
    {
        let u = polygon[i];
        let v = if i + 1 < n {
            polygon[i + 1]
        } else {
            polygon[0]
        };
        proof {
            assert(pairs[i as int] == (u, v));
            assert(pairs.take(i + 1).drop_last() =~= pairs.take(i as int));
            assert(pairs.take(i + 1).last() == (u, v));
            if i + 1 < n {
                assert(polygon[i as int] != polygon[i + 1]);
            }
        }
        let ghost before = kept_pairs(pairs.take(i as int), all@);
        let ghost now = kept_pairs(pairs.take(i + 1), all@);
        let is_kept = add_if_kept(&mut nodes, &mut table, &edges_set, u, v);
        proof {
            assert(is_kept == occurs_odd(all@, Segment::spec_new(u, v)));
            if is_kept {
                assert(now == before.push((u, v)));
                assert(now.drop_last() =~= before);
                assert(now.last() == (u, v));
            } else {
                assert(now == before);
            }
        }
        if is_kept {
            kept += 1;
        }
        i += 1;
    }
    assert(pairs.take(i as int) =~= pairs);
    let mut result: Vec<Vec<Point>> = Vec::new();
    let limit = nodes.len();
    let ghost graph = node_views(nodes@);
    let mut start: usize = 0;
    assert(crate::edges::point_lists(result@) =~= Seq::<Seq<Point>>::empty());
    while start < limit
        invariant
            start <= limit,
            limit == nodes.len(),
            graph_wf(nodes@, table@),
            forall|i: int| 0 <= i < result.len() ==> (#[trigger] result[i]).len() >= 1,
            crate::edges::point_lists(result@) + walks_from(
                node_views(nodes@),
                start as int,
                limit as int,
                kept as nat,
            ) == walks_from(graph, 0, limit as int, kept as nat),
        decreases limit - start,
    {
        if !nodes[start].visited {
            let ghost before = nodes@;
            let ghost done = crate::edges::point_lists(result@);
            nodes[start].visited = true;
            proof {
                assert(node_views(nodes@) =~= node_views(before).update(
                    start as int,
                    NodeView { visited: true, ..node_views(before)[start as int] },
                ));
                assert forall|j: int| 0 <= j < nodes.len() implies table@.contains_key(
                    (#[trigger] nodes@[j]).point.spec_key(),
                ) && table@[nodes@[j].point.spec_key()] == j by {
                    assert(nodes@[j].point == before[j].point);
                }
            }
            let mut path = walk_from(&mut nodes, &table, start, kept);
            strip_path(&mut path);
            result.push(path);
            proof {
                assert(crate::edges::point_lists(result@) =~= done.push(path@));
                assert(done.push(path@) + walks_from(
                    node_views(nodes@),
                    start + 1,
                    limit as int,
                    kept as nat,
                ) =~= done + walks_from(node_views(before), start as int, limit as int, kept as nat));
            }
        }
        start += 1;
    }
    assert(crate::edges::point_lists(result@) + Seq::<Seq<Point>>::empty()
        =~= crate::edges::point_lists(result@));
    (result, edges_dedup)
}

} // verus!
