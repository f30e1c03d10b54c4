//! Dependency ordering of the nodes of a graph: Kahn's algorithm, together with
//! what it promises about the order it finds and about the nodes it gives up on.

use crate::graph::{NodeId, PortIdx};
use std::collections::VecDeque;
use vstd::prelude::*;

verus! {

/// A directed edge of the processing graph: an output port feeding an input port.
#[derive(Debug, Clone, Copy, PartialEq, Eq)]
pub struct Edge {
    /// Source `(node, output port)`.
    pub from: (NodeId, PortIdx),
    /// Destination `(node, input port)`.
    pub to: (NodeId, PortIdx),
}

/// Edge `k` joins two of the nodes `0..num_nodes`. Every other edge is ignored.
pub open spec fn in_range(edges: Seq<Edge>, num_nodes: int, k: int) -> bool {
    0 <= k < edges.len() && edges[k].from.0 < num_nodes && edges[k].to.0 < num_nodes
}

/// Some edge leads from node `u` to node `v`.
pub open spec fn feeds(edges: Seq<Edge>, num_nodes: int, u: NodeId, v: NodeId) -> bool {
    exists|k: int| #[trigger]
        in_range(edges, num_nodes, k) && edges[k].from.0 == u && edges[k].to.0 == v
}

/// `order` lists every node of `0..num_nodes` exactly once.
pub open spec fn is_permutation(order: Seq<NodeId>, num_nodes: int) -> bool {
    &&& order.len() == num_nodes
    &&& order.no_duplicates()
    &&& forall|i: int| 0 <= i < order.len() ==> #[trigger] order[i] < num_nodes
}

/// Along every edge, the source comes before the destination.
pub open spec fn respects_edges(order: Seq<NodeId>, num_nodes: int, edges: Seq<Edge>) -> bool {
    forall|i: int, j: int|
        0 <= i < order.len() && 0 <= j < order.len() && #[trigger] feeds(
            edges,
            num_nodes,
            order[i],
            order[j],
        ) ==> i < j
}

/// `order` is a topological order of the nodes `0..num_nodes`.
pub open spec fn is_topological(order: Seq<NodeId>, num_nodes: int, edges: Seq<Edge>) -> bool {
    is_permutation(order, num_nodes) && respects_edges(order, num_nodes, edges)
}

/// Consecutive nodes of `path` are joined by an edge.
pub open spec fn is_walk(edges: Seq<Edge>, num_nodes: int, path: Seq<NodeId>) -> bool {
    &&& path.len() > 0
    &&& forall|i: int, j: int|
        0 <= i && j == i + 1 && j < path.len() ==> feeds(
            edges,
            num_nodes,
            #[trigger] path[i],
            #[trigger] path[j],
        )
}

/// Some node can be reached from itself.
pub open spec fn has_cycle(edges: Seq<Edge>, num_nodes: int) -> bool {
    exists|path: Seq<NodeId>| #[trigger]
        is_walk(edges, num_nodes, path) && path.len() > 1 && path.first() == path.last()
}

/// `path` is a walk that starts by going round a cycle: it comes back to its first node at
/// position `k`.
pub open spec fn starts_with_cycle(
    edges: Seq<Edge>,
    num_nodes: int,
    path: Seq<NodeId>,
    k: int,
) -> bool {
    is_walk(edges, num_nodes, path) && 0 < k < path.len() && path[0] == path[k]
}

/// Node `v` lies on a cycle or downstream of one.
pub open spec fn behind_cycle(edges: Seq<Edge>, num_nodes: int, v: NodeId) -> bool {
    exists|path: Seq<NodeId>, k: int| #[trigger]
        starts_with_cycle(edges, num_nodes, path, k) && path.last() == v
}

/// Position `a` before position `b`, or the same position and edge `j` before edge `k`.
pub open spec fn earlier(a: (int, int), b: (int, int)) -> bool {
    a.0 < b.0 || (a.0 == b.0 && a.1 < b.1)
}

/// What released the node at position `p` of `order`: `key` is `(-1, node)` for a node without
/// incoming edges, and otherwise the position of its last predecessor together with the index
/// of the last edge from there.
pub open spec fn released_by(
    order: Seq<NodeId>,
    num_nodes: int,
    edges: Seq<Edge>,
    p: int,
    key: (int, int),
) -> bool {
    if key.0 < 0 {
        &&& key == (-1int, order[p] as int)
        &&& forall|k: int| #[trigger] in_range(edges, num_nodes, k) ==> edges[k].to.0 != order[p]
    } else {
        &&& key.0 < order.len()
        &&& in_range(edges, num_nodes, key.1)
        &&& edges[key.1].from.0 == order[key.0]
        &&& edges[key.1].to.0 == order[p]
        &&& forall|i: int, k: int|
            0 <= i < order.len() && #[trigger] in_range(edges, num_nodes, k) && edges[k].from.0
                == #[trigger] order[i] && edges[k].to.0 == order[p] ==> !earlier(key, (i, k))
    }
}

/// The nodes stand in the order in which they are released: first those without incoming
/// edges, by id, then each other node as its last incoming edge is reached.
pub open spec fn in_release_order(order: Seq<NodeId>, num_nodes: int, edges: Seq<Edge>) -> bool {
    forall|p: int, q: int, a: (int, int), b: (int, int)|
        0 <= p < q < order.len() && #[trigger] released_by(order, num_nodes, edges, p, a)
            && #[trigger] released_by(order, num_nodes, edges, q, b) ==> earlier(a, b)
}

/// The number of edges among the first `upto` that lead to `v` and are not marked in `gone`.
spec fn open_count(edges: Seq<Edge>, num_nodes: int, gone: Seq<bool>, v: int, upto: int) -> int
    decreases upto,
{
    if upto <= 0 {
        0
    } else {
        let last: int = if in_range(edges, num_nodes, upto - 1) && edges[upto - 1].to.0 == v
            && !gone[upto - 1] {
            1
        } else {
            0
        };
        open_count(edges, num_nodes, gone, v, upto - 1) + last
    }
}

proof fn lemma_open_count_bounds(
    edges: Seq<Edge>,
    num_nodes: int,
    gone: Seq<bool>,
    v: int,
    upto: int,
)
    requires
        0 <= upto,
    ensures
        0 <= open_count(edges, num_nodes, gone, v, upto) <= upto,
    decreases upto,
{
    if upto > 0 {
        lemma_open_count_bounds(edges, num_nodes, gone, v, upto - 1);
    }
}

/// Marking edge `k` takes it off the count of its destination and off no other.
proof fn lemma_open_count_mark(
    edges: Seq<Edge>,
    num_nodes: int,
    gone: Seq<bool>,
    v: int,
    k: int,
    upto: int,
)
    requires
        in_range(edges, num_nodes, k),
        gone.len() == edges.len(),
        !gone[k],
        0 <= upto <= edges.len(),
    ensures
        open_count(edges, num_nodes, gone.update(k, true), v, upto) == open_count(
            edges,
            num_nodes,
            gone,
            v,
            upto,
        ) - (if k < upto && edges[k].to.0 == v {
            1int
        } else {
            0int
        }),
    decreases upto,
{
    if upto > 0 {
        lemma_open_count_mark(edges, num_nodes, gone, v, k, upto - 1);
    }
}

/// The count is zero exactly when every edge that leads to `v` is marked.
proof fn lemma_open_count_zero(
    edges: Seq<Edge>,
    num_nodes: int,
    gone: Seq<bool>,
    v: int,
    upto: int,
)
    requires
        0 <= upto <= edges.len(),
    ensures
        open_count(edges, num_nodes, gone, v, upto) == 0 <==> forall|k: int|
            k < upto && #[trigger] in_range(edges, num_nodes, k) && edges[k].to.0 == v ==> gone[k],
    decreases upto,
{
    if upto > 0 {
        lemma_open_count_zero(edges, num_nodes, gone, v, upto - 1);
        lemma_open_count_bounds(edges, num_nodes, gone, v, upto - 1);
        if open_count(edges, num_nodes, gone, v, upto) == 0 {
            assert forall|k: int|
                k < upto && #[trigger] in_range(edges, num_nodes, k) && edges[k].to.0
                    == v implies gone[k] by {
                if k < upto - 1 {
                }
            }
        } else if forall|k: int|
            k < upto && #[trigger] in_range(edges, num_nodes, k) && edges[k].to.0 == v
                ==> gone[k] {
            assert(open_count(edges, num_nodes, gone, v, upto - 1) == 0);
            assert(false);
        }
    }
}

/// Distinct ids below `num_nodes` are at most `num_nodes` many, and as many only if none is
/// missing.
pub(crate) proof fn lemma_distinct_ids(ids: Seq<NodeId>, num_nodes: int)
    requires
        ids.no_duplicates(),
        forall|i: int| 0 <= i < ids.len() ==> #[trigger] ids[i] < num_nodes,
        0 <= num_nodes <= usize::MAX,
    ensures
        ids.len() <= num_nodes,
        ids.len() == num_nodes <==> forall|v: NodeId| v < num_nodes ==> #[trigger] ids.contains(v),
    decreases num_nodes,
{
    if num_nodes == 0 {
        if ids.len() > 0 {
            assert(ids[0] < 0);
        }
    } else {
        let top = (num_nodes - 1) as usize;
        if ids.contains(top) {
            let i = ids.index_of(top);
            let rest = ids.remove(i);
            ids.remove_ensures(i);
            assert forall|a: int, b: int| 0 <= a < rest.len() && 0 <= b < rest.len() && a
                != b implies rest[a] != rest[b] by {
                let a0 = if a < i { a } else { a + 1 };
                let b0 = if b < i { b } else { b + 1 };
                assert(ids[a0] != ids[b0]);
            }
            assert forall|a: int| 0 <= a < rest.len() implies #[trigger] rest[a] < num_nodes
                - 1 by {
                let a0 = if a < i { a } else { a + 1 };
                assert(ids[a0] < num_nodes && ids[a0] != ids[i]);
            }
            lemma_distinct_ids(rest, num_nodes - 1);
            assert forall|v: NodeId| v < num_nodes - 1 implies #[trigger] ids.contains(v)
                == rest.contains(v) by {
                if ids.contains(v) {
                    let a = ids.index_of(v);
                    assert(rest[if a < i { a } else { a - 1 }] == v);
                }
                if rest.contains(v) {
                    let a = rest.index_of(v);
                    assert(ids[if a < i { a } else { a + 1 }] == v);
                }
            }
            if rest.len() == num_nodes - 1 {
                assert forall|v: NodeId| v < num_nodes implies #[trigger] ids.contains(v) by {
                    if v < num_nodes - 1 {
                        assert(rest.contains(v));
                    }
                }
            } else {
                let v = choose|v: NodeId| v < num_nodes - 1 && !#[trigger] rest.contains(v);
                assert(!ids.contains(v));
            }
        } else {
            assert forall|a: int| 0 <= a < ids.len() implies #[trigger] ids[a] < num_nodes - 1 by {
                assert(ids[a] != top);
            }
            lemma_distinct_ids(ids, num_nodes - 1);
        }
    }
}

/// Node `u` stands among the first `d` of `seen`.
spec fn done_before(seen: Seq<NodeId>, d: int, u: NodeId) -> bool {
    exists|i: int| 0 <= i < d && #[trigger] seen[i] == u
}

/// Edge `k` has been followed: its source is among the first `d` nodes of `seen`, or it is the
/// next one and `k` is among the first `j` edges.
spec fn followed(
    edges: Seq<Edge>,
    num_nodes: int,
    seen: Seq<NodeId>,
    d: int,
    j: int,
    k: int,
) -> bool {
    &&& in_range(edges, num_nodes, k)
    &&& done_before(seen, d, edges[k].from.0) || (d < seen.len() && edges[k].from.0 == seen[d] && k
        < j)
}

/// The state of the search. `seen` holds the nodes released so far, `d` of them are finished and
/// the next one has followed its edges among the first `j`; `gone` marks the edges that were
/// followed, `degree` counts the others, and `keys` says what released each node.
spec fn search_state(
    edges: Seq<Edge>,
    num_nodes: int,
    seen: Seq<NodeId>,
    d: int,
    j: int,
    gone: Seq<bool>,
    degree: Seq<usize>,
    keys: Seq<(int, int)>,
) -> bool {
    &&& 0 <= d <= seen.len()
    &&& 0 <= j <= edges.len()
    &&& gone.len() == edges.len()
    &&& degree.len() == num_nodes
    &&& keys.len() == seen.len()
    &&& seen.no_duplicates()
    &&& forall|p: int| 0 <= p < seen.len() ==> #[trigger] seen[p] < num_nodes
    &&& forall|k: int|
        0 <= k < edges.len() ==> #[trigger] gone[k] == followed(edges, num_nodes, seen, d, j, k)
    &&& forall|v: NodeId|
        v < num_nodes ==> #[trigger] degree[v as int] == open_count(
            edges,
            num_nodes,
            gone,
            v as int,
            edges.len() as int,
        )
    &&& forall|v: NodeId| v < num_nodes ==> (#[trigger] seen.contains(v) <==> degree[v as int] == 0)
    &&& forall|p: int|
        0 <= p < seen.len() ==> #[trigger] released_by(seen, num_nodes, edges, p, keys[p])
    &&& forall|p: int| 0 <= p < keys.len() ==> (#[trigger] keys[p]).0 < p
    &&& forall|p: int| 0 <= p < keys.len() ==> earlier(#[trigger] keys[p], (d, j))
    &&& forall|p: int, q: int|
        0 <= p < q < keys.len() ==> earlier(#[trigger] keys[p], #[trigger] keys[q])
}

/// Following edge `j` of the current node: the destination loses one open edge, and joins `seen`
/// if that was the last.
proof fn lemma_follow(
    edges: Seq<Edge>,
    num_nodes: int,
    seen: Seq<NodeId>,
    d: int,
    j: int,
    gone: Seq<bool>,
    degree: Seq<usize>,
    keys: Seq<(int, int)>,
)
    requires
        search_state(edges, num_nodes, seen, d, j, gone, degree, keys),
        d < seen.len(),
        in_range(edges, num_nodes, j),
        edges[j].from.0 == seen[d],
    ensures
        degree[edges[j].to.0 as int] > 0,
        ({
            let v = edges[j].to.0;
            let left = (degree[v as int] - 1) as usize;
            let degree1 = degree.update(v as int, left);
            let gone1 = gone.update(j, true);
            if left == 0 {
                search_state(
                    edges,
                    num_nodes,
                    seen.push(v),
                    d,
                    j + 1,
                    gone1,
                    degree1,
                    keys.push((d, j)),
                )
            } else {
                search_state(edges, num_nodes, seen, d, j + 1, gone1, degree1, keys)
            }
        }),
{
    let n = edges.len() as int;
    let v = edges[j].to.0;
    assert(!done_before(seen, d, seen[d])) by {
        if done_before(seen, d, seen[d]) {
            let i = choose|i: int| 0 <= i < d && #[trigger] seen[i] == seen[d];
            assert(seen[i] != seen[d]);
        }
    }
    assert(!gone[j]);
    lemma_open_count_zero(edges, num_nodes, gone, v as int, n);
    lemma_open_count_bounds(edges, num_nodes, gone, v as int, n);
    let left = (degree[v as int] - 1) as usize;
    let degree1 = degree.update(v as int, left);
    let gone1 = gone.update(j, true);
    assert forall|w: NodeId| w < num_nodes implies #[trigger] degree1[w as int] == open_count(
        edges,
        num_nodes,
        gone1,
        w as int,
        n,
    ) by {
        lemma_open_count_mark(edges, num_nodes, gone, w as int, j, n);
        assert(degree[w as int] == open_count(edges, num_nodes, gone, w as int, n));
    }
    assert forall|k: int| 0 <= k < n implies #[trigger] gone1[k] == followed(
        edges,
        num_nodes,
        seen,
        d,
        j + 1,
        k,
    ) by {
        assert(gone[k] == followed(edges, num_nodes, seen, d, j, k));
    }
    assert(!seen.contains(v));
    if left == 0 {
        let seen1 = seen.push(v);
        let keys1 = keys.push((d, j));
        lemma_open_count_zero(edges, num_nodes, gone1, v as int, n);
        assert forall|u: NodeId| done_before(seen1, d, u) == done_before(seen, d, u) by {
            if done_before(seen, d, u) {
                let i = choose|i: int| 0 <= i < d && #[trigger] seen[i] == u;
                assert(seen1[i] == u);
            }
            if done_before(seen1, d, u) {
                let i = choose|i: int| 0 <= i < d && #[trigger] seen1[i] == u;
                assert(seen[i] == u);
            }
        }
        assert forall|k: int| 0 <= k < n implies #[trigger] gone1[k] == followed(
            edges,
            num_nodes,
            seen1,
            d,
            j + 1,
            k,
        ) by {
            assert(gone1[k] == followed(edges, num_nodes, seen, d, j + 1, k));
        }
        // Whatever leads to a released node was followed from one of the first `d + 1` nodes.
        assert forall|w: NodeId, k: int| #![trigger seen1.contains(w), in_range(edges, num_nodes, k)]
            seen1.contains(w) && in_range(edges, num_nodes, k) && edges[k].to.0
                == w implies done_before(seen, d, edges[k].from.0) || (edges[k].from.0 == seen[d]
            && k <= j) by {
            assert(w < num_nodes && degree1[w as int] == 0) by {
                let p = seen1.index_of(w);
                if p < seen.len() {
                    assert(seen[p] == w);
                    assert(seen.contains(w));
                }
            }
            lemma_open_count_zero(edges, num_nodes, gone1, w as int, n);
            assert(gone1[k]);
        }
        assert forall|p: int| 0 <= p < seen1.len() implies #[trigger] released_by(
            seen1,
            num_nodes,
            edges,
            p,
            keys1[p],
        ) by {
            assert(seen1.contains(seen1[p]));
            if p < seen.len() {
                assert(released_by(seen, num_nodes, edges, p, keys[p]));
                assert(keys[p].0 < p);
                if keys[p].0 >= 0 {
                    assert(seen1[keys[p].0] == seen[keys[p].0]);
                    assert forall|i: int, k: int|
                        0 <= i < seen1.len() && #[trigger] in_range(edges, num_nodes, k)
                            && edges[k].from.0 == #[trigger] seen1[i] && edges[k].to.0
                            == seen1[p] implies !earlier(keys[p], (i, k)) by {
                        if i == seen.len() {
                            if done_before(seen, d, edges[k].from.0) {
                                let i0 = choose|i0: int| 0 <= i0 < d && #[trigger] seen[i0]
                                    == edges[k].from.0;
                                assert(seen.contains(seen[i0]));
                            } else {
                                assert(seen.contains(seen[d]));
                            }
                            assert(false);
                        }
                        assert(seen1[i] == seen[i]);
                    }
                }
            } else {
                assert(seen1[d] == seen[d]);
                assert forall|i: int, k: int|
                    0 <= i < seen1.len() && #[trigger] in_range(edges, num_nodes, k)
                        && edges[k].from.0 == #[trigger] seen1[i] && edges[k].to.0
                        == v implies !earlier((d, j), (i, k)) by {
                    if done_before(seen, d, edges[k].from.0) {
                        let i0 = choose|i0: int| 0 <= i0 < d && #[trigger] seen[i0]
                            == edges[k].from.0;
                        assert(seen1[i0] == seen1[i]);
                        if i == seen.len() {
                            assert(seen.contains(seen[i0]));
                        } else {
                            assert(seen[i0] == seen[i]);
                        }
                    } else {
                        if i == seen.len() {
                            assert(seen.contains(seen[d]));
                        } else {
                            assert(seen[i] == seen[d]);
                        }
                    }
                }
            }
        }
        assert forall|w: NodeId| w < num_nodes implies (#[trigger] seen1.contains(w)
            <==> degree1[w as int] == 0) by {
            if seen.contains(w) {
                let p = seen.index_of(w);
                assert(seen1[p] == w);
            }
            if seen1.contains(w) {
                let p = seen1.index_of(w);
                if p < seen.len() {
                    assert(seen[p] == w);
                }
            }
            if w == v {
                assert(seen1[seen.len() as int] == v);
            }
        }
    }
}

/// An edge that does not leave the current node, or is out of range, changes nothing.
proof fn lemma_pass_over(
    edges: Seq<Edge>,
    num_nodes: int,
    seen: Seq<NodeId>,
    d: int,
    j: int,
    gone: Seq<bool>,
    degree: Seq<usize>,
    keys: Seq<(int, int)>,
)
    requires
        search_state(edges, num_nodes, seen, d, j, gone, degree, keys),
        d < seen.len(),
        j < edges.len(),
        !in_range(edges, num_nodes, j) || edges[j].from.0 != seen[d],
    ensures
        search_state(edges, num_nodes, seen, d, j + 1, gone, degree, keys),
{
    assert forall|k: int| 0 <= k < edges.len() implies #[trigger] gone[k] == followed(
        edges,
        num_nodes,
        seen,
        d,
        j + 1,
        k,
    ) by {
        assert(gone[k] == followed(edges, num_nodes, seen, d, j, k));
    }
}

/// A node that has followed all its edges is finished.
proof fn lemma_finish(
    edges: Seq<Edge>,
    num_nodes: int,
    seen: Seq<NodeId>,
    d: int,
    gone: Seq<bool>,
    degree: Seq<usize>,
    keys: Seq<(int, int)>,
)
    requires
        search_state(edges, num_nodes, seen, d, edges.len() as int, gone, degree, keys),
        d < seen.len(),
    ensures
        search_state(edges, num_nodes, seen, d + 1, 0, gone, degree, keys),
{
    assert forall|u: NodeId| #[trigger]
        done_before(seen, d + 1, u) == (done_before(seen, d, u) || u == seen[d]) by {
        if done_before(seen, d + 1, u) {
            let i = choose|i: int| 0 <= i < d + 1 && #[trigger] seen[i] == u;
            if i < d {
                assert(done_before(seen, d, u));
            }
        }
        if done_before(seen, d, u) {
            let i = choose|i: int| 0 <= i < d && #[trigger] seen[i] == u;
            assert(seen[i] == u);
        }
    }
    assert forall|k: int| 0 <= k < edges.len() implies #[trigger] gone[k] == followed(
        edges,
        num_nodes,
        seen,
        d + 1,
        0,
        k,
    ) by {
        assert(gone[k] == followed(edges, num_nodes, seen, d, edges.len() as int, k));
    }
}

/// What released a node is determined by the order.
proof fn lemma_key_unique(
    order: Seq<NodeId>,
    num_nodes: int,
    edges: Seq<Edge>,
    p: int,
    a: (int, int),
    b: (int, int),
)
    requires
        0 <= p < order.len(),
        released_by(order, num_nodes, edges, p, a),
        released_by(order, num_nodes, edges, p, b),
    ensures
        a == b,
{
    if a.0 >= 0 && b.0 >= 0 {
        assert(in_range(edges, num_nodes, b.1) && edges[b.1].from.0 == order[b.0]);
        assert(in_range(edges, num_nodes, a.1) && edges[a.1].from.0 == order[a.0]);
        assert(!earlier(a, (b.0, b.1)));
        assert(!earlier(b, (a.0, a.1)));
    }
}

/// Once every released node is finished, the released nodes stand in release order, each after
/// all of its predecessors, and the predecessors are all released.
proof fn lemma_search_end(
    edges: Seq<Edge>,
    num_nodes: int,
    seen: Seq<NodeId>,
    gone: Seq<bool>,
    degree: Seq<usize>,
    keys: Seq<(int, int)>,
)
    requires
        search_state(edges, num_nodes, seen, seen.len() as int, 0, gone, degree, keys),
        0 <= num_nodes <= usize::MAX,
    ensures
        respects_edges(seen, num_nodes, edges),
        in_release_order(seen, num_nodes, edges),
        forall|u: NodeId, v: NodeId| #[trigger]
            feeds(edges, num_nodes, u, v) && seen.contains(v) ==> seen.contains(u),
        forall|v: NodeId|
            v < num_nodes && !#[trigger] seen.contains(v) ==> exists|u: NodeId| #[trigger]
                feeds(edges, num_nodes, u, v) && !seen.contains(u),
{
    let n = edges.len() as int;
    assert forall|i: int, j: int|
        0 <= i < seen.len() && 0 <= j < seen.len() && #[trigger] feeds(
            edges,
            num_nodes,
            seen[i],
            seen[j],
        ) implies i < j by {
        let k = choose|k: int| #[trigger]
            in_range(edges, num_nodes, k) && edges[k].from.0 == seen[i] && edges[k].to.0 == seen[j];
        assert(released_by(seen, num_nodes, edges, j, keys[j]));
        assert(keys[j].0 < j);
        if keys[j].0 >= 0 {
            assert(!earlier(keys[j], (i, k)));
        }
    }
    assert forall|p: int, q: int, a: (int, int), b: (int, int)|
        0 <= p < q < seen.len() && #[trigger] released_by(seen, num_nodes, edges, p, a)
            && #[trigger] released_by(seen, num_nodes, edges, q, b) implies earlier(a, b) by {
        assert(released_by(seen, num_nodes, edges, p, keys[p]));
        assert(released_by(seen, num_nodes, edges, q, keys[q]));
        lemma_key_unique(seen, num_nodes, edges, p, a, keys[p]);
        lemma_key_unique(seen, num_nodes, edges, q, b, keys[q]);
    }
    assert forall|u: NodeId, v: NodeId| #[trigger]
        feeds(edges, num_nodes, u, v) && seen.contains(v) implies seen.contains(u) by {
        let k = choose|k: int| #[trigger]
            in_range(edges, num_nodes, k) && edges[k].from.0 == u && edges[k].to.0 == v;
        lemma_open_count_zero(edges, num_nodes, gone, v as int, n);
        assert(degree[v as int] == 0);
        assert(gone[k]);
        let i = choose|i: int| 0 <= i < seen.len() && #[trigger] seen[i] == edges[k].from.0;
        assert(seen[i] == u);
    }
    assert forall|v: NodeId| v < num_nodes && !#[trigger] seen.contains(v) implies exists|
        u: NodeId,
    | #[trigger] feeds(edges, num_nodes, u, v) && !seen.contains(u) by {
        lemma_open_count_zero(edges, num_nodes, gone, v as int, n);
        assert(degree[v as int] != 0);
        let k = choose|k: int|
            k < n && #[trigger] in_range(edges, num_nodes, k) && edges[k].to.0 == v && !gone[k];
        let u = edges[k].from.0;
        assert(feeds(edges, num_nodes, u, v));
        if seen.contains(u) {
            let i = seen.index_of(u);
            assert(seen[i] == u);
            assert(done_before(seen, seen.len() as int, u));
            assert(followed(edges, num_nodes, seen, seen.len() as int, 0, k));
        }
    }
}

/// Along a walk that ends in a listed node, all nodes are listed, at increasing positions.
proof fn lemma_walk_positions(
    edges: Seq<Edge>,
    num_nodes: int,
    seen: Seq<NodeId>,
    path: Seq<NodeId>,
    from: int,
    to: int,
)
    requires
        seen.no_duplicates(),
        respects_edges(seen, num_nodes, edges),
        forall|u: NodeId, v: NodeId| #[trigger]
            feeds(edges, num_nodes, u, v) && seen.contains(v) ==> seen.contains(u),
        is_walk(edges, num_nodes, path),
        0 <= from <= to < path.len(),
        seen.contains(path[to]),
    ensures
        seen.contains(path[from]),
        seen.index_of(path[from]) + (to - from) <= seen.index_of(path[to]),
    decreases to - from,
{
    if from < to {
        lemma_walk_positions(edges, num_nodes, seen, path, from + 1, to);
        assert(feeds(edges, num_nodes, path[from], path[from + 1]));
        let a = seen.index_of(path[from]);
        let b = seen.index_of(path[from + 1]);
        assert(seen[a] == path[from] && seen[b] == path[from + 1]);
        assert(feeds(edges, num_nodes, seen[a], seen[b]));
    }
}

/// A graph that has a topological order has no cycle.
pub proof fn lemma_topological_is_acyclic(order: Seq<NodeId>, num_nodes: int, edges: Seq<Edge>)
    requires
        0 <= num_nodes <= usize::MAX,
        is_topological(order, num_nodes, edges),
    ensures
        !has_cycle(edges, num_nodes),
        forall|v: NodeId| !behind_cycle(edges, num_nodes, v),
{
    lemma_distinct_ids(order, num_nodes);
    assert forall|u: NodeId, v: NodeId| #[trigger]
        feeds(edges, num_nodes, u, v) && order.contains(v) implies order.contains(u) by {
        assert(u < num_nodes);
    }
    if has_cycle(edges, num_nodes) {
        let path = choose|path: Seq<NodeId>| #[trigger]
            is_walk(edges, num_nodes, path) && path.len() > 1 && path.first() == path.last();
        let end = path.len() - 1;
        assert(feeds(edges, num_nodes, path[end - 1], path[end]));
        assert(order.contains(path[end]));
        lemma_walk_positions(edges, num_nodes, order, path, 0, end);
    }
    assert forall|v: NodeId| !behind_cycle(edges, num_nodes, v) by {
        if behind_cycle(edges, num_nodes, v) {
            let (path, k) = choose|path: Seq<NodeId>, k: int| #[trigger]
                starts_with_cycle(edges, num_nodes, path, k) && path.last() == v;
            assert(feeds(edges, num_nodes, path[k - 1], path[k]));
            assert(order.contains(path[k]));
            lemma_walk_positions(edges, num_nodes, order, path, 0, k);
        }
    }
}

/// From an unlisted node one can walk backwards through unlisted nodes as far as one likes.
proof fn lemma_walk_back(
    edges: Seq<Edge>,
    num_nodes: int,
    seen: Seq<NodeId>,
    v: NodeId,
    len: nat,
) -> (path: Seq<NodeId>)
    requires
        forall|v: NodeId|
            v < num_nodes && !#[trigger] seen.contains(v) ==> exists|u: NodeId| #[trigger]
                feeds(edges, num_nodes, u, v) && !seen.contains(u),
        v < num_nodes,
        !seen.contains(v),
        len > 0,
    ensures
        is_walk(edges, num_nodes, path),
        path.len() == len,
        path.last() == v,
        forall|i: int| 0 <= i < path.len() ==> #[trigger] path[i] < num_nodes,
        !seen.contains(path[0]),
    decreases len,
{
    if len == 1 {
        seq![v]
    } else {
        let rest = lemma_walk_back(edges, num_nodes, seen, v, (len - 1) as nat);
        let head = rest[0];
        assert(!seen.contains(head) && head < num_nodes);
        let u = choose|u: NodeId| #[trigger]
            feeds(edges, num_nodes, u, head) && !seen.contains(u);
        let path = seq![u] + rest;
        assert forall|i: int, j: int| 0 <= i && j == i + 1 && j < path.len() implies feeds(
            edges,
            num_nodes,
            #[trigger] path[i],
            #[trigger] path[j],
        ) by {
            if i > 0 {
                assert(path[i] == rest[i - 1] && path[j] == rest[j - 1]);
            }
        }
        assert forall|i: int| 0 <= i < path.len() implies #[trigger] path[i] < num_nodes by {
            if i > 0 {
                assert(path[i] == rest[i - 1]);
            }
        }
        path
    }
}

/// A walk that starts with a cycle yields the cycle.
proof fn lemma_cycle_of_start(edges: Seq<Edge>, num_nodes: int, path: Seq<NodeId>, k: int)
    requires
        starts_with_cycle(edges, num_nodes, path, k),
    ensures
        has_cycle(edges, num_nodes),
{
    let cycle = path.take(k + 1);
    assert forall|i: int, j: int| 0 <= i && j == i + 1 && j < cycle.len() implies feeds(
        edges,
        num_nodes,
        #[trigger] cycle[i],
        #[trigger] cycle[j],
    ) by {
        assert(cycle[i] == path[i] && cycle[j] == path[j]);
    }
    assert(is_walk(edges, num_nodes, cycle));
}

/// The unlisted nodes are exactly those on a cycle or downstream of one.
proof fn lemma_unlisted(edges: Seq<Edge>, num_nodes: int, seen: Seq<NodeId>, v: NodeId)
    requires
        0 <= num_nodes <= usize::MAX,
        seen.no_duplicates(),
        respects_edges(seen, num_nodes, edges),
        forall|u: NodeId, v: NodeId| #[trigger]
            feeds(edges, num_nodes, u, v) && seen.contains(v) ==> seen.contains(u),
        forall|v: NodeId|
            v < num_nodes && !#[trigger] seen.contains(v) ==> exists|u: NodeId| #[trigger]
                feeds(edges, num_nodes, u, v) && !seen.contains(u),
        v < num_nodes,
    ensures
        seen.contains(v) <==> !behind_cycle(edges, num_nodes, v),
        !seen.contains(v) ==> has_cycle(edges, num_nodes),
{
    if seen.contains(v) {
        if behind_cycle(edges, num_nodes, v) {
            let (path, k) = choose|path: Seq<NodeId>, k: int| #[trigger]
                starts_with_cycle(edges, num_nodes, path, k) && path.last() == v;
            lemma_walk_positions(edges, num_nodes, seen, path, k, path.len() - 1);
            lemma_walk_positions(edges, num_nodes, seen, path, 0, k);
            assert(false);
        }
    } else {
        let path = lemma_walk_back(edges, num_nodes, seen, v, (num_nodes + 1) as nat);
        if path.no_duplicates() {
            lemma_distinct_ids(path, num_nodes);
            assert(false);
        }
        let (a, b) = choose|a: int, b: int|
            0 <= a < path.len() && 0 <= b < path.len() && a != b && path[a] == path[b];
        let i = if a < b { a } else { b };
        let k = if a < b { b } else { a };
        let tail = path.skip(i);
        assert forall|x: int, y: int| 0 <= x && y == x + 1 && y < tail.len() implies feeds(
            edges,
            num_nodes,
            #[trigger] tail[x],
            #[trigger] tail[y],
        ) by {
            assert(tail[x] == path[x + i] && tail[y] == path[y + i]);
        }
        assert(starts_with_cycle(edges, num_nodes, tail, k - i));
        assert(tail.last() == v);
        lemma_cycle_of_start(edges, num_nodes, tail, k - i);
    }
}

/// Topologically sorts the nodes `0..num_nodes` by Kahn's algorithm.
///
/// Returns the order in which the nodes are released, in which every node comes after all of
/// its predecessors. If there is a cycle, returns instead, by ascending id, the nodes that
/// cannot be ordered: those on a cycle or downstream of one. Edges that refer to nodes outside
/// `0..num_nodes` are ignored.
pub fn topological_sort(num_nodes: usize, edges: &[Edge]) -> (r: Result<Vec<NodeId>, Vec<NodeId>>)
    ensures
        r is Ok <==> !has_cycle(edges@, num_nodes as int),
        r matches Ok(order) ==> {
            &&& is_topological(order@, num_nodes as int, edges@)
            &&& in_release_order(order@, num_nodes as int, edges@)
        },
        r matches Err(remaining) ==> {
            &&& remaining@.len() > 0
            &&& forall|i: int, j: int|
                0 <= i < j < remaining@.len() ==> #[trigger] remaining@[i] < #[trigger] remaining@[j]
            &&& forall|v: NodeId| #[trigger]
                remaining@.contains(v) <==> v < num_nodes && behind_cycle(
                    edges@,
                    num_nodes as int,
                    v,
                )
        },
{
    let ghost es = edges@;
    let ghost n = num_nodes as int;
    let ghost mut gone: Seq<bool> = Seq::new(edges@.len(), |k: int| false);

    // in_degree[v]: the incoming edges of `v` that are still open.
    let mut in_degree: Vec<usize> = vec![0usize; num_nodes];
    let mut e: usize = 0;
    while e < edges.len()
        invariant
            e <= edges.len(),
            edges@ == es,
            n == num_nodes,
            in_degree@.len() == n,
            forall|v: NodeId|
                v < n ==> #[trigger] in_degree@[v as int] == open_count(
                    es,
                    n,
                    gone,
                    v as int,
                    e as int,
                ),
            gone.len() == es.len(),
            forall|k: int| 0 <= k < es.len() ==> !#[trigger] gone[k],
        decreases edges.len() - e,
    {
        let edge = edges[e];
        if edge.from.0 < num_nodes && edge.to.0 < num_nodes {
            let v = edge.to.0;
            proof {
                lemma_open_count_bounds(es, n, gone, v as int, e as int);
                assert(in_degree@[v as int] == open_count(es, n, gone, v as int, e as int));
            }
            in_degree[v] = in_degree[v] + 1;
        }
        e = e + 1;
    }

    // The nodes without incoming edges are released at once.
    let mut queue: VecDeque<NodeId> = VecDeque::new();
    let ghost mut keys: Seq<(int, int)> = Seq::empty();
    let mut s: usize = 0;
    while s < num_nodes
        invariant
            s <= num_nodes,
            n == num_nodes,
            in_degree@.len() == n,
            keys.len() == queue@.len(),
            forall|p: int| 0 <= p < keys.len() ==> #[trigger] keys[p] == (-1int, queue@[p] as int),
            forall|p: int| 0 <= p < queue@.len() ==> #[trigger] queue@[p] < s,
            forall|p: int, q: int|
                0 <= p < q < queue@.len() ==> #[trigger] queue@[p] < #[trigger] queue@[q],
            forall|v: NodeId| v < s ==> (#[trigger] queue@.contains(v) <==> in_degree@[v as int] == 0),
        decreases num_nodes - s,
    {
        let ghost before = queue@;
        if in_degree[s] == 0 {
            queue.push_back(s);
            proof {
                keys = keys.push((-1int, s as int));
            }
        }
        proof {
            assert forall|v: NodeId| v < s + 1 implies (#[trigger] queue@.contains(v)
                <==> in_degree@[v as int] == 0) by {
                if v < s {
                    if before.contains(v) {
                        let p = before.index_of(v);
                        assert(queue@[p] == v);
                    }
                    if queue@.contains(v) {
                        let p = queue@.index_of(v);
                        assert(before[p] == v);
                    }
                } else {
                    if in_degree@[s as int] == 0 {
                        assert(queue@[before.len() as int] == s);
                    } else if queue@.contains(s) {
                        let p = queue@.index_of(s);
                        assert(queue@[p] < s);
                    }
                }
            }
        }
        s = s + 1;
    }

    let mut order: Vec<NodeId> = Vec::with_capacity(num_nodes);
    proof {
        assert(order@ + queue@ =~= queue@);
        assert forall|k: int| 0 <= k < es.len() implies #[trigger] gone[k] == followed(
            es,
            n,
            queue@,
            0,
            0,
            k,
        ) by {}
        assert forall|p: int| 0 <= p < queue@.len() implies #[trigger] released_by(
            queue@,
            n,
            es,
            p,
            keys[p],
        ) by {
            let v = queue@[p];
            assert(keys[p] == (-1int, v as int));
            assert(queue@.contains(v));
            lemma_open_count_zero(es, n, gone, v as int, es.len() as int);
        }
        assert(search_state(es, n, queue@, 0, 0, gone, in_degree@, keys));
    }
    while queue.len() > 0
        invariant
            n == num_nodes,
            edges@ == es,
            search_state(
                es,
                n,
                order@ + queue@,
                order@.len() as int,
                0,
                gone,
                in_degree@,
                keys,
            ),
        decreases num_nodes - order@.len(),
    {
        let ghost seen0 = order@ + queue@;
        proof {
            lemma_distinct_ids(seen0, n);
        }
        let next = queue.pop_front();
        match next {
            None => {
                assert(false);
            },
            Some(node) => {
                let ghost d = order@.len() as int;
                order.push(node);
                assert(order@ + queue@ =~= seen0);
                assert(seen0[d] == node);
                let mut j: usize = 0;
                while j < edges.len()
                    invariant
                        j <= edges.len(),
                        n == num_nodes,
                        edges@ == es,
                        order@.len() == d + 1,
                        order@[d] == node,
                        0 <= d,
                        search_state(es, n, order@ + queue@, d, j as int, gone, in_degree@, keys),
                    decreases edges.len() - j,
                {
                    let edge = edges[j];
                    let ghost seen = order@ + queue@;
                    assert(seen[d] == node);
                    if edge.from.0 == node && edge.to.0 < num_nodes {
                        let v = edge.to.0;
                        proof {
                            assert(seen[d] < n);
                            assert(in_range(es, n, j as int));
                            lemma_follow(es, n, seen, d, j as int, gone, in_degree@, keys);
                            gone = gone.update(j as int, true);
                        }
                        let left: usize = in_degree[v] - 1;
                        in_degree[v] = left;
                        if left == 0 {
                            queue.push_back(v);
                            proof {
                                keys = keys.push((d, j as int));
                                assert(order@ + queue@ =~= seen.push(v));
                            }
                        }
                    } else {
                        proof {
                            lemma_pass_over(es, n, seen, d, j as int, gone, in_degree@, keys);
                        }
                    }
                    j = j + 1;
                }
                proof {
                    lemma_finish(es, n, order@ + queue@, d, gone, in_degree@, keys);
                }
            },
        }
    }
    assert(order@ + queue@ =~= order@);
    proof {
        lemma_search_end(es, n, order@, gone, in_degree@, keys);
        lemma_distinct_ids(order@, n);
    }
    if order.len() == num_nodes {
        proof {
            lemma_topological_is_acyclic(order@, n, es);
        }
        Ok(order)
    } else {
        // The unresolved nodes are exactly those with open incoming edges left.
        let mut remaining: Vec<NodeId> = Vec::new();
        let mut v: usize = 0;
        while v < num_nodes
            invariant
                v <= num_nodes,
                n == num_nodes,
                in_degree@.len() == n,
                forall|p: int| 0 <= p < remaining@.len() ==> #[trigger] remaining@[p] < v,
                forall|p: int, q: int|
                    0 <= p < q < remaining@.len() ==> #[trigger] remaining@[p]
                        < #[trigger] remaining@[q],
                forall|u: NodeId|
                    u < v ==> (#[trigger] remaining@.contains(u) <==> in_degree@[u as int] > 0),
            decreases num_nodes - v,
        {
            let ghost before = remaining@;
            if in_degree[v] > 0 {
                remaining.push(v);
            }
            proof {
                assert forall|u: NodeId| u < v + 1 implies (#[trigger] remaining@.contains(u)
                    <==> in_degree@[u as int] > 0) by {
                    if u < v {
                        if before.contains(u) {
                            let p = before.index_of(u);
                            assert(remaining@[p] == u);
                        }
                        if remaining@.contains(u) {
                            let p = remaining@.index_of(u);
                            assert(before[p] == u);
                        }
                    } else {
                        if in_degree@[v as int] > 0 {
                            assert(remaining@[before.len() as int] == v);
                        } else if remaining@.contains(v) {
                            let p = remaining@.index_of(v);
                            assert(remaining@[p] < v);
                        }
                    }
                }
            }
            v = v + 1;
        }
        proof {
            assert forall|u: NodeId| #[trigger]
                remaining@.contains(u) <==> u < num_nodes && behind_cycle(es, n, u) by {
                if remaining@.contains(u) {
                    let p = remaining@.index_of(u);
                    assert(remaining@[p] < num_nodes);
                }
                if u < num_nodes {
                    lemma_unlisted(es, n, order@, u);
                    assert(order@.contains(u) <==> in_degree@[u as int] == 0);
                }
            }
            let u = choose|u: NodeId| u < n && !#[trigger] order@.contains(u);
            lemma_unlisted(es, n, order@, u);
            assert(remaining@.contains(u));
        }
        Err(remaining)
    }
}

/// Something released every node: the last of its incoming edges among the first `upto`, by
/// the position of the source and then by index, or nothing.
proof fn lemma_key_exists(
    order: Seq<NodeId>,
    num_nodes: int,
    edges: Seq<Edge>,
    p: int,
    upto: int,
) -> (key: (int, int))
    requires
        0 <= num_nodes <= usize::MAX,
        is_permutation(order, num_nodes),
        0 <= p < order.len(),
        0 <= upto <= edges.len(),
    ensures
        key.0 < 0 ==> {
            &&& key == (-1int, order[p] as int)
            &&& forall|k: int|
                k < upto && #[trigger] in_range(edges, num_nodes, k) ==> edges[k].to.0 != order[p]
        },
        key.0 >= 0 ==> {
            &&& key.0 < order.len()
            &&& in_range(edges, num_nodes, key.1)
            &&& key.1 < upto
            &&& edges[key.1].from.0 == order[key.0]
            &&& edges[key.1].to.0 == order[p]
            &&& forall|i: int, k: int|
                k < upto && 0 <= i < order.len() && #[trigger] in_range(edges, num_nodes, k)
                    && edges[k].from.0 == #[trigger] order[i] && edges[k].to.0 == order[p]
                    ==> !earlier(key, (i, k))
        },
    decreases upto,
{
    if upto == 0 {
        (-1int, order[p] as int)
    } else {
        let key = lemma_key_exists(order, num_nodes, edges, p, upto - 1);
        let k = upto - 1;
        if in_range(edges, num_nodes, k) && edges[k].to.0 == order[p] {
            lemma_distinct_ids(order, num_nodes);
            assert(order.contains(edges[k].from.0));
            let i = order.index_of(edges[k].from.0);
            if key.0 > i {
                key
            } else {
                (i, k)
            }
        } else {
            key
        }
    }
}

/// If two orders agree before position `p`, then what releases the node at `p` of the one
/// releases it, wherever it stands, in the other.
proof fn lemma_key_carries_over(
    a: Seq<NodeId>,
    b: Seq<NodeId>,
    num_nodes: int,
    edges: Seq<Edge>,
    p: int,
    r: int,
    key: (int, int),
)
    requires
        0 <= num_nodes <= usize::MAX,
        is_topological(a, num_nodes, edges),
        is_topological(b, num_nodes, edges),
        0 <= p < a.len(),
        0 <= r < b.len(),
        forall|i: int| 0 <= i < p ==> #[trigger] a[i] == b[i],
        a[p] == b[r],
        released_by(a, num_nodes, edges, p, key),
    ensures
        released_by(b, num_nodes, edges, r, key),
{
    if key.0 >= 0 {
        assert(feeds(edges, num_nodes, a[key.0], a[p]));
        assert(a[key.0] == b[key.0]);
        assert forall|i: int, k: int|
            0 <= i < b.len() && #[trigger] in_range(edges, num_nodes, k) && edges[k].from.0
                == #[trigger] b[i] && edges[k].to.0 == b[r] implies !earlier(key, (i, k)) by {
            lemma_distinct_ids(a, num_nodes);
            assert(a.contains(b[i]));
            let i0 = a.index_of(b[i]);
            assert(a[i0] == b[i]);
            assert(feeds(edges, num_nodes, a[i0], a[p]));
            assert(a[i0] == b[i0]);
            assert(i == i0);
        }
    }
}

/// The edges determine the order: only one topological order is a release order.
pub proof fn lemma_release_order_unique(
    a: Seq<NodeId>,
    b: Seq<NodeId>,
    num_nodes: int,
    edges: Seq<Edge>,
)
    requires
        0 <= num_nodes <= usize::MAX,
        is_topological(a, num_nodes, edges),
        in_release_order(a, num_nodes, edges),
        is_topological(b, num_nodes, edges),
        in_release_order(b, num_nodes, edges),
    ensures
        a == b,
{
    lemma_orders_agree(a, b, num_nodes, edges, num_nodes);
    assert(a =~= b);
}

proof fn lemma_orders_agree(
    a: Seq<NodeId>,
    b: Seq<NodeId>,
    num_nodes: int,
    edges: Seq<Edge>,
    len: int,
)
    requires
        0 <= num_nodes <= usize::MAX,
        is_topological(a, num_nodes, edges),
        in_release_order(a, num_nodes, edges),
        is_topological(b, num_nodes, edges),
        in_release_order(b, num_nodes, edges),
        0 <= len <= num_nodes,
    ensures
        forall|i: int| 0 <= i < len ==> #[trigger] a[i] == b[i],
    decreases len,
{
    if len > 0 {
        lemma_orders_agree(a, b, num_nodes, edges, len - 1);
        let p = len - 1;
        if a[p] != b[p] {
            lemma_distinct_ids(a, num_nodes);
            lemma_distinct_ids(b, num_nodes);
            assert(a[p] < num_nodes && b[p] < num_nodes);
            assert(b.contains(a[p]) && a.contains(b[p]));
            let r = b.index_of(a[p]);
            let q = a.index_of(b[p]);
            assert(r > p) by {
                if r < p {
                    assert(a[r] == b[r]);
                }
            }
            assert(q > p) by {
                if q < p {
                    assert(a[q] == b[q]);
                }
            }
            let n = edges.len() as int;
            let ka = lemma_key_exists(a, num_nodes, edges, p, n);
            let kb = lemma_key_exists(b, num_nodes, edges, p, n);
            assert(released_by(a, num_nodes, edges, p, ka));
            assert(released_by(b, num_nodes, edges, p, kb));
            lemma_key_carries_over(a, b, num_nodes, edges, p, r, ka);
            lemma_key_carries_over(b, a, num_nodes, edges, p, q, kb);
            assert(earlier(ka, kb) && earlier(kb, ka));
        }
    }
}

/// A sorted order lists each of the nodes `0..num_nodes` once, and along every edge between two of
/// them the source before the destination.
pub proof fn lemma_sources_come_first(order: Seq<NodeId>, num_nodes: int, edges: Seq<Edge>)
    requires
        0 <= num_nodes <= usize::MAX,
        is_topological(order, num_nodes, edges),
    ensures
        order.len() == num_nodes,
        forall|v: NodeId| v < num_nodes ==> #[trigger] order.contains(v),
        forall|i: int, j: int|
            0 <= i < j < order.len() ==> #[trigger] order[i] != #[trigger] order[j],
        forall|k: int, i: int, j: int|
            0 <= k < edges.len() && 0 <= i < order.len() && 0 <= j < order.len() && (
            #[trigger] edges[k]).from.0 == #[trigger] order[i] && edges[k].to.0
                == #[trigger] order[j] ==> i < j,
{
    lemma_distinct_ids(order, num_nodes);
    assert forall|k: int, i: int, j: int|
        0 <= k < edges.len() && 0 <= i < order.len() && 0 <= j < order.len() && (
        #[trigger] edges[k]).from.0 == #[trigger] order[i] && edges[k].to.0
            == #[trigger] order[j] implies i < j by {
        assert(in_range(edges, num_nodes, k));
        assert(feeds(edges, num_nodes, order[i], order[j]));
    }
}

/// How ties are broken. Nodes that no edge leads to come first, by ascending id. Any other node
/// follows when the last of the edges that lead to it is reached: edges are reached in the order of
/// the nodes that they come from, and those of one node in the order in which they are listed. Here
/// edge `k` from position `i` is the last one to lead to the node at position `p`, and edge `l`
/// from position `j` the last one to lead to that at position `q`.
pub proof fn lemma_ties_are_broken_by_the_last_edge(
    order: Seq<NodeId>,
    num_nodes: int,
    edges: Seq<Edge>,
    p: int,
    i: int,
    k: int,
    q: int,
    j: int,
    l: int,
)
    requires
        0 <= num_nodes <= usize::MAX,
        is_topological(order, num_nodes, edges),
        in_release_order(order, num_nodes, edges),
        0 <= p < order.len(),
        0 <= i < order.len(),
        0 <= k < edges.len(),
        edges[k].from.0 == order[i],
        edges[k].to.0 == order[p],
        forall|m: int, x: int|
            0 <= m < edges.len() && 0 <= x < order.len() && (#[trigger] edges[m]).to.0 == order[p]
                && edges[m].from.0 == #[trigger] order[x] ==> x < i || (x == i && m <= k),
        0 <= q < order.len(),
        0 <= j < order.len(),
        0 <= l < edges.len(),
        edges[l].from.0 == order[j],
        edges[l].to.0 == order[q],
        forall|m: int, x: int|
            0 <= m < edges.len() && 0 <= x < order.len() && (#[trigger] edges[m]).to.0 == order[q]
                && edges[m].from.0 == #[trigger] order[x] ==> x < j || (x == j && m <= l),
    ensures
        i < j ==> p < q,
        i == j && k < l ==> p < q,
{
    assert(in_range(edges, num_nodes, k) && in_range(edges, num_nodes, l));
    assert(released_by(order, num_nodes, edges, p, (i, k)));
    assert(released_by(order, num_nodes, edges, q, (j, l)));
    if earlier((i, k), (j, l)) {
        if q < p {
            assert(earlier((j, l), (i, k)));
        } else if q == p {
            assert(edges[l].to.0 == order[p] && edges[l].from.0 == order[j]);
        }
    }
}

/// Nodes that no edge leads to come before all others, and among themselves by ascending id.
pub proof fn lemma_nodes_without_edges_come_first(
    order: Seq<NodeId>,
    num_nodes: int,
    edges: Seq<Edge>,
    p: int,
    q: int,
)
    requires
        0 <= num_nodes <= usize::MAX,
        is_topological(order, num_nodes, edges),
        in_release_order(order, num_nodes, edges),
        0 <= p < order.len(),
        0 <= q < order.len(),
        forall|k: int|
            0 <= k < edges.len() && (#[trigger] edges[k]).from.0 < num_nodes ==> edges[k].to.0
                != order[p],
    ensures
        (exists|k: int|
            0 <= k < edges.len() && (#[trigger] edges[k]).from.0 < num_nodes && edges[k].to.0
                == order[q]) ==> p < q,
        (forall|k: int|
            0 <= k < edges.len() && (#[trigger] edges[k]).from.0 < num_nodes ==> edges[k].to.0
                != order[q]) && order[p] < order[q] ==> p < q,
{
    assert(released_by(order, num_nodes, edges, p, (-1int, order[p] as int)));
    if exists|k: int|
        0 <= k < edges.len() && (#[trigger] edges[k]).from.0 < num_nodes && edges[k].to.0
            == order[q] {
        let k = choose|k: int|
            0 <= k < edges.len() && (#[trigger] edges[k]).from.0 < num_nodes && edges[k].to.0
                == order[q];
        assert(in_range(edges, num_nodes, k));
        lemma_distinct_ids(order, num_nodes);
        let key = lemma_key_exists(order, num_nodes, edges, q, edges.len() as int);
        assert(released_by(order, num_nodes, edges, q, key));
        if q < p {
            assert(earlier(key, (-1int, order[p] as int)));
        }
    } else if order[p] < order[q] {
        assert(released_by(order, num_nodes, edges, q, (-1int, order[q] as int)));
        if q < p {
            assert(earlier((-1int, order[q] as int), (-1int, order[p] as int)));
        }
    }
}

/// Some edge leads to `v` from a node in `held`.
pub open spec fn waits_for(edges: Seq<Edge>, held: Set<NodeId>, v: NodeId) -> bool {
    exists|k: int|
        0 <= k < edges.len() && (#[trigger] edges[k]).to.0 == v && held.contains(edges[k].from.0)
}

/// Each of the nodes in `held` waits for another of them: some edge leads to it from a node in
/// `held`. No order can place any of them after all that feed it.
pub open spec fn hold_each_other_up(edges: Seq<Edge>, num_nodes: int, held: Set<NodeId>) -> bool {
    forall|v: NodeId|
        held.contains(v) ==> v < num_nodes && #[trigger] waits_for(edges, held, v)
}

/// The nodes that a failed sort names are exactly those that hold each other up: each waits for
/// another of them, and whatever nodes do so are among them.
pub proof fn lemma_unordered_nodes_hold_each_other_up(
    edges: Seq<Edge>,
    num_nodes: int,
    named: Seq<NodeId>,
    held: Set<NodeId>,
)
    requires
        0 <= num_nodes <= usize::MAX,
        forall|v: NodeId| #[trigger]
            named.contains(v) <==> v < num_nodes && behind_cycle(edges, num_nodes, v),
    ensures
        hold_each_other_up(edges, num_nodes, named.to_set()),
        hold_each_other_up(edges, num_nodes, held) ==> forall|v: NodeId| #[trigger]
            held.contains(v) ==> named.contains(v),
{
    let all = named.to_set();
    assert forall|v: NodeId| all.contains(v) implies v < num_nodes && #[trigger] waits_for(
        edges,
        all,
        v,
    ) by {
        assert(named.contains(v));
        let k = lemma_behind_cycle_is_fed(edges, num_nodes, v);
        assert(named.contains(edges[k].from.0));
        assert(all.contains(edges[k].from.0));
    }
    if hold_each_other_up(edges, num_nodes, held) {
        assert forall|v: NodeId| #[trigger] held.contains(v) implies named.contains(v) by {
            lemma_held_is_behind_cycle(edges, num_nodes, held, v);
        }
    }
}

/// Sorting fails exactly if there are nodes that hold each other up.
pub proof fn lemma_cycle_means_nodes_hold_each_other_up(edges: Seq<Edge>, num_nodes: int)
    requires
        0 <= num_nodes <= usize::MAX,
    ensures
        has_cycle(edges, num_nodes) <==> exists|held: Set<NodeId>, v: NodeId| #[trigger]
            hold_each_other_up(edges, num_nodes, held) && #[trigger] held.contains(v),
{
    if has_cycle(edges, num_nodes) {
        let path = choose|path: Seq<NodeId>| #[trigger]
            is_walk(edges, num_nodes, path) && path.len() > 1 && path.first() == path.last();
        let v = path.last();
        assert(starts_with_cycle(edges, num_nodes, path, path.len() - 1));
        assert(behind_cycle(edges, num_nodes, v));
        let held = Set::new(
            |u: NodeId| u < num_nodes && behind_cycle(edges, num_nodes, u),
        );
        assert forall|u: NodeId| held.contains(u) implies u < num_nodes && #[trigger] waits_for(
            edges,
            held,
            u,
        ) by {
            let k = lemma_behind_cycle_is_fed(edges, num_nodes, u);
            assert(held.contains(edges[k].from.0));
        }
        let end = path.len() - 1;
        assert(feeds(edges, num_nodes, path[end - 1], path[end]));
        assert(held.contains(v));
        assert(hold_each_other_up(edges, num_nodes, held));
    }
    if exists|held: Set<NodeId>, v: NodeId| #[trigger]
        hold_each_other_up(edges, num_nodes, held) && #[trigger] held.contains(v) {
        let (held, v) = choose|held: Set<NodeId>, v: NodeId| #[trigger]
            hold_each_other_up(edges, num_nodes, held) && #[trigger] held.contains(v);
        lemma_held_is_behind_cycle(edges, num_nodes, held, v);
        let (path, k) = choose|path: Seq<NodeId>, k: int| #[trigger]
            starts_with_cycle(edges, num_nodes, path, k) && path.last() == v;
        let round = path.take(k + 1);
        assert forall|i: int, j: int| 0 <= i && j == i + 1 && j < round.len() implies feeds(
            edges,
            num_nodes,
            #[trigger] round[i],
            #[trigger] round[j],
        ) by {
            assert(feeds(edges, num_nodes, path[i], path[j]));
        }
        assert(is_walk(edges, num_nodes, round));
        assert(round.first() == round.last());
    }
}

/// A node on a cycle or downstream of one is fed by such a node.
proof fn lemma_behind_cycle_is_fed(edges: Seq<Edge>, num_nodes: int, v: NodeId) -> (k: int)
    requires
        behind_cycle(edges, num_nodes, v),
    ensures
        in_range(edges, num_nodes, k),
        edges[k].to.0 == v,
        behind_cycle(edges, num_nodes, edges[k].from.0),
{
    let (path, c) = choose|path: Seq<NodeId>, c: int| #[trigger]
        starts_with_cycle(edges, num_nodes, path, c) && path.last() == v;
    let end = path.len() - 1;
    let u = path[end - 1];
    assert(feeds(edges, num_nodes, path[end - 1], path[end]));
    if c < end {
        let shorter = path.take(end);
        assert forall|i: int, j: int| 0 <= i && j == i + 1 && j < shorter.len() implies feeds(
            edges,
            num_nodes,
            #[trigger] shorter[i],
            #[trigger] shorter[j],
        ) by {
            assert(feeds(edges, num_nodes, path[i], path[j]));
        }
        assert(starts_with_cycle(edges, num_nodes, shorter, c));
        assert(shorter.last() == u);
    } else if end > 1 {
        let longer = path + path.subrange(1, end);
        assert forall|i: int, j: int| 0 <= i && j == i + 1 && j < longer.len() implies feeds(
            edges,
            num_nodes,
            #[trigger] longer[i],
            #[trigger] longer[j],
        ) by {
            if j <= end {
                assert(feeds(edges, num_nodes, path[i], path[j]));
            } else {
                assert(longer[i] == path[i - end]);
                assert(longer[j] == path[j - end]);
                assert(feeds(edges, num_nodes, path[i - end], path[j - end]));
            }
        }
        assert(starts_with_cycle(edges, num_nodes, longer, end));
        assert(longer.last() == u);
    } else {
        assert(u == v);
    }
    choose|k: int| #[trigger]
        in_range(edges, num_nodes, k) && edges[k].from.0 == u && edges[k].to.0 == v
}

/// Back along edges between nodes that hold each other up: a walk of `len` of them that ends at `v`.
proof fn lemma_held_walk(
    edges: Seq<Edge>,
    num_nodes: int,
    held: Set<NodeId>,
    v: NodeId,
    len: nat,
) -> (path: Seq<NodeId>)
    requires
        hold_each_other_up(edges, num_nodes, held),
        held.contains(v),
        len > 0,
    ensures
        path.len() == len,
        is_walk(edges, num_nodes, path),
        path.last() == v,
        forall|i: int| 0 <= i < path.len() ==> held.contains(#[trigger] path[i]),
    decreases len,
{
    if len == 1 {
        seq![v]
    } else {
        assert(waits_for(edges, held, v));
        let k = choose|k: int|
            0 <= k < edges.len() && (#[trigger] edges[k]).to.0 == v && held.contains(
                edges[k].from.0,
            );
        let u = edges[k].from.0;
        let front = lemma_held_walk(edges, num_nodes, held, u, (len - 1) as nat);
        let path = front.push(v);
        assert(waits_for(edges, held, u));
        assert(in_range(edges, num_nodes, k));
        assert(feeds(edges, num_nodes, u, v));
        assert forall|i: int, j: int| 0 <= i && j == i + 1 && j < path.len() implies feeds(
            edges,
            num_nodes,
            #[trigger] path[i],
            #[trigger] path[j],
        ) by {
            if j < front.len() {
                assert(feeds(edges, num_nodes, front[i], front[j]));
            }
        }
        path
    }
}

proof fn lemma_held_is_behind_cycle(
    edges: Seq<Edge>,
    num_nodes: int,
    held: Set<NodeId>,
    v: NodeId,
)
    requires
        0 <= num_nodes <= usize::MAX,
        hold_each_other_up(edges, num_nodes, held),
        held.contains(v),
    ensures
        v < num_nodes,
        behind_cycle(edges, num_nodes, v),
{
    let path = lemma_held_walk(edges, num_nodes, held, v, (num_nodes + 1) as nat);
    assert forall|i: int| 0 <= i < path.len() implies #[trigger] path[i] < num_nodes by {
        assert(held.contains(path[i]));
        assert(waits_for(edges, held, path[i]));
    }
    assert(waits_for(edges, held, v));
    if path.no_duplicates() {
        lemma_distinct_ids(path, num_nodes);
    }
    let (a, b) = choose|a: int, b: int|
        0 <= a < path.len() && 0 <= b < path.len() && a != b && path[a] == path[b];
    let (i, j) = if a < b {
        (a, b)
    } else {
        (b, a)
    };
    let tail = path.subrange(i, path.len() as int);
    assert forall|x: int, y: int| 0 <= x && y == x + 1 && y < tail.len() implies feeds(
        edges,
        num_nodes,
        #[trigger] tail[x],
        #[trigger] tail[y],
    ) by {
        assert(feeds(edges, num_nodes, path[x + i], path[y + i]));
    }
    assert(starts_with_cycle(edges, num_nodes, tail, j - i));
    assert(tail.last() == v);
}

} // verus!
