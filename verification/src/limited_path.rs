//! Whether one node can be reached from another within a limit on the total weight.

use std::collections::HashMap;
use vstd::prelude::*;
use vstd::set_lib::{lemma_len_subset, FiniteRange};
use vstd::std_specs::hash::group_hash_axioms;
use crate::adjacency::{lemma_target_index_unique, target_index};
use crate::error::{GraphError, GraphKindError};
use crate::graph::Graph;
use crate::paths::{is_walk, lemma_walk_push, walk_between};

verus! {

/// The weight of the walk `p`: the weights of its edges, added up.
pub open spec fn walk_weight<T>(g: &Graph<T>, p: Seq<u32>) -> int
    decreases p.len(),
{
    if p.len() <= 1 {
        0
    } else {
        walk_weight(g, p.drop_last()) + g.weight(p[p.len() - 2], p[p.len() - 1])
    }
}

/// Some walk from `a` to `b` weighs at most `limit`.
pub open spec fn within<T>(g: &Graph<T>, a: u32, b: u32, limit: int) -> bool {
    exists|p: Seq<u32>| #[trigger] walk_between(g.arcs(), p, a, b) && walk_weight(g, p) <= limit
}

/// A walk that goes on by one edge weighs that edge more.
pub proof fn lemma_weight_push<T>(g: &Graph<T>, p: Seq<u32>, x: u32)
    requires
        p.len() >= 1,
    ensures
        walk_weight(g, p.push(x)) == walk_weight(g, p) + g.weight(p[p.len() - 1], x),
{
    assert(p.push(x).drop_last() =~= p);
}

/// The start of a walk is a walk, and weighs no more than the whole.
pub proof fn lemma_prefix<T>(g: &Graph<T>, p: Seq<u32>, k: int)
    requires
        is_walk(g.arcs(), p),
        0 <= k < p.len(),
    ensures
        is_walk(g.arcs(), p.take(k + 1)),
        0 <= walk_weight(g, p.take(k + 1)) <= walk_weight(g, p),
        k + 1 < p.len() ==> walk_weight(g, p.take(k + 2)) == walk_weight(g, p.take(k + 1)) + g.weight(
            p[k],
            p[k + 1],
        ),
    decreases p.len() - k,
{
    let q = p.take(k + 1);
    assert forall|i: int| 0 <= i < q.len() - 1 implies (g.arcs())(#[trigger] q[i], q[i + 1]) by {
        assert((g.arcs())(p[i], p[i + 1]));
    }
    lemma_weight_floor(g, q);
    if k + 1 < p.len() {
        lemma_prefix(g, p, k + 1);
        let q2 = p.take(k + 2);
        assert(q2.drop_last() =~= q);
        assert(walk_weight(g, q2) == walk_weight(g, q) + g.weight(q2[q2.len() - 2], q2[q2.len() - 1]));
    } else {
        assert(q =~= p);
        lemma_weight_floor(g, p);
    }
}

/// No walk has a negative weight.
pub proof fn lemma_weight_floor<T>(g: &Graph<T>, p: Seq<u32>)
    ensures
        walk_weight(g, p) >= 0,
    decreases p.len(),
{
    if p.len() > 1 {
        lemma_weight_floor(g, p.drop_last());
    }
}

/// Every edge that leaves `n` within the limit leads to a node with a distance, one that
/// the edge does not undercut.
spec fn relaxed<T>(g: &Graph<T>, dist: Map<u32, u32>, limit: int, n: u32) -> bool {
    forall|v: u32| #[trigger]
        g.has_edge(n, v) && dist[n] + g.weight(n, v) <= limit ==> dist.contains_key(v) && dist[v] <= dist[n]
            + g.weight(n, v)
}

proof fn lemma_relaxed_covers<T>(g: &Graph<T>, dist: Map<u32, u32>, limit: int, p: Seq<u32>, k: int)
    requires
        is_walk(g.arcs(), p),
        dist.contains_key(p[0]),
        dist[p[0]] == 0,
        forall|n: u32| #[trigger] dist.contains_key(n) ==> relaxed(g, dist, limit, n),
        walk_weight(g, p) <= limit,
        0 <= k < p.len(),
    ensures
        dist.contains_key(p[k]),
        dist[p[k]] <= walk_weight(g, p.take(k + 1)),
    decreases k,
{
    if k == 0 {
        lemma_weight_floor(g, p.take(1));
    } else {
        lemma_relaxed_covers(g, dist, limit, p, k - 1);
        lemma_prefix(g, p, k - 1);
        lemma_prefix(g, p, k);
        assert((g.arcs())(p[k - 1], p[k - 1 + 1]));
        assert(g.has_edge(p[k - 1], p[k]));
        assert(relaxed(g, dist, limit, p[k - 1]));
    }
}

/// The pairs of a set of pairs are at most 2^64.
proof fn lemma_pairs_bound(s: Set<(u32, u32)>)
    ensures
        s.finite(),
        s.len() <= 0x1_0000_0000_0000_0000,
{
    let f = |e: (u32, u32)| (e.0 as u64 * 0x1_0000_0000 + e.1 as u64) as u64;
    let low = Set::<u64>::new(|x: u64| 0 <= x < u64::MAX);
    let all = low.insert(u64::MAX);
    <u64 as FiniteRange>::range_properties(0, u64::MAX);
    assert(<u64 as FiniteRange>::range_set(0, u64::MAX) =~= low);
    let g = |x: u64| ((x / 0x1_0000_0000) as u32, (x % 0x1_0000_0000) as u32);
    let full = all.map(g);
    all.lemma_map_finite(g);
    vstd::set_lib::lemma_map_size_bound(all, full, g);
    assert(s.subset_of(full)) by {
        assert forall|e: (u32, u32)| s.contains(e) implies full.contains(e) by {
            let x = f(e);
            assert(all.contains(x));
            assert(g(x) == e);
        }
    }
    lemma_len_subset(s, full);
}

/// Whether a walk of weight at most `weight_limit` leads from `start` to `destination`.
///
/// The search keeps for each node the least weight at which it has met the node, and a list
/// of the nodes whose edges it has still to follow; it follows an edge only where the weight
/// stays within the limit.
pub fn deikstra<T>(graph: &Graph<T>, start: u32, destination: u32, weight_limit: u32) -> (b: bool)
    requires
        graph.wf(),
    ensures
        b == within(graph, start, destination, weight_limit as int),
{
    broadcast use group_hash_axioms;

    let ghost limit = weight_limit as int;
    let mut dist: HashMap<u32, u32> = HashMap::new();
    let mut work: Vec<(u32, u32)> = Vec::new();
    let ghost mut pushed: Set<(u32, u32)> = Set::empty();
    dist.insert(start, 0);
    work.push((0, start));
    proof {
        pushed = pushed.insert((start, 0u32));
        assert(walk_between(graph.arcs(), seq![start], start, start));
        assert(walk_weight(graph, seq![start]) == 0);
        assert(work@[0] == (0u32, start));
    }
    while work.len() > 0
        invariant
            graph.wf(),
            limit == weight_limit as int,
            dist@.contains_key(start),
            dist@[start] == 0,
            forall|v: u32| #[trigger] dist@.contains_key(v) ==> within(graph, start, v, dist@[v] as int) && dist@[v]
                <= limit,
            forall|k: int|
                0 <= k < work@.len() ==> dist@.contains_key((#[trigger] work@[k]).1) && dist@[work@[k].1]
                    <= work@[k].0 <= limit,
            forall|n: u32| #[trigger]
                dist@.contains_key(n) ==> relaxed(graph, dist@, limit, n) || exists|k: int|
                    0 <= k < work@.len() && #[trigger] work@[k] == (dist@[n], n),
            dist@.contains_key(destination) ==> exists|k: int|
                0 <= k < work@.len() && (#[trigger] work@[k]).1 == destination,
            forall|e: (u32, u32)| #[trigger] pushed.contains(e) ==> dist@.contains_key(e.0) && dist@[e.0] <= e.1,
        decreases 0x1_0000_0000_0000_0000 - pushed.len(), work@.len(),
    {
        let ghost work0 = work@;
        let ghost pushed0 = pushed;
        let top = work.pop().unwrap();
        let w = top.0;
        let n = top.1;
        proof {
            lemma_pairs_bound(pushed);
            assert(work0[work0.len() - 1] == top);
            assert(work@ =~= work0.drop_last());
        }
        if n == destination {
            proof {
                let p = choose|p: Seq<u32>| #[trigger]
                    walk_between(graph.arcs(), p, start, n) && walk_weight(graph, p) <= dist@[n] as int;
                assert(walk_between(graph.arcs(), p, start, destination) && walk_weight(graph, p) <= limit);
            }
            return true;
        }
        let current = *dist.get(&n).unwrap();
        if w == current {
            match graph.get_adjacency(&n) {
                None => {
                    proof {
                        assert(relaxed(graph, dist@, limit, n));
                        assert forall|m: u32| #[trigger] dist@.contains_key(m) implies relaxed(
                            graph,
                            dist@,
                            limit,
                            m,
                        ) || exists|k: int| 0 <= k < work@.len() && #[trigger] work@[k] == (dist@[m], m) by {
                            if m != n && !relaxed(graph, dist@, limit, m) {
                                let k = choose|k: int| 0 <= k < work0.len() && #[trigger] work0[k] == (dist@[m], m);
                                assert(work@[k] == work0[k]);
                            }
                        }
                        assert(dist@.contains_key(destination) ==> exists|k: int|
                            0 <= k < work@.len() && (#[trigger] work@[k]).1 == destination) by {
                            if dist@.contains_key(destination) {
                                let k = choose|k: int| 0 <= k < work0.len() && (#[trigger] work0[k]).1 == destination;
                                assert(work@[k] == work0[k]);
                            }
                        }
                    }
                },
                Some(a) => {
                    let ghost edges = a@;
                    let mut j: usize = 0;
                    proof {
                        assert forall|m: u32| m != n && #[trigger] dist@.contains_key(m) implies relaxed(
                            graph,
                            dist@,
                            limit,
                            m,
                        ) || exists|k: int| 0 <= k < work@.len() && #[trigger] work@[k] == (dist@[m], m) by {
                            if !relaxed(graph, dist@, limit, m) {
                                let k = choose|k: int| 0 <= k < work0.len() && #[trigger] work0[k] == (dist@[m], m);
                                assert(work@[k] == work0[k]);
                            }
                        }
                        assert(dist@.contains_key(destination) ==> exists|k: int|
                            0 <= k < work@.len() && (#[trigger] work@[k]).1 == destination) by {
                            if dist@.contains_key(destination) {
                                let k = choose|k: int| 0 <= k < work0.len() && (#[trigger] work0[k]).1 == destination;
                                assert(work@[k] == work0[k]);
                            }
                        }
                    }
                    while j < a.len()
                        invariant
                            j <= edges.len(),
                            edges == a@,
                            graph.adj().contains_key(n),
                            edges == graph.adj()[n],
                            graph.wf(),
                            limit == weight_limit as int,
                            n != destination,
                            dist@.contains_key(start),
                            dist@[start] == 0,
                            dist@.contains_key(n),
                            dist@[n] == w,
                            forall|v: u32| #[trigger]
                                dist@.contains_key(v) ==> within(graph, start, v, dist@[v] as int) && dist@[v] <= limit,
                            forall|k: int|
                                0 <= k < work@.len() ==> dist@.contains_key((#[trigger] work@[k]).1)
                                    && dist@[work@[k].1] <= work@[k].0 <= limit,
                            forall|m: u32|
                                m != n && #[trigger] dist@.contains_key(m) ==> relaxed(graph, dist@, limit, m)
                                    || exists|k: int| 0 <= k < work@.len() && #[trigger] work@[k] == (dist@[m], m),
                            forall|i: int|
                                0 <= i < j && w + (#[trigger] edges[i]).weight <= limit ==> dist@.contains_key(
                                    edges[i].target(),
                                ) && dist@[edges[i].target()] <= w + edges[i].weight,
                            dist@.contains_key(destination) ==> exists|k: int|
                                0 <= k < work@.len() && (#[trigger] work@[k]).1 == destination,
                            forall|e: (u32, u32)| #[trigger]
                                pushed.contains(e) ==> dist@.contains_key(e.0) && dist@[e.0] <= e.1,
                            pushed0.subset_of(pushed),
                            pushed.finite(),
                            pushed0.finite(),
                            pushed.len() >= pushed0.len(),
                            pushed.len() == pushed0.len() ==> work@.len() == work0.len() - 1,
                        decreases edges.len() - j,
                    {
                        let e = a.edge(j);
                        let v = e.node.number;
                        let c = e.weight;
                        let new: u64 = w as u64 + c as u64;
                        let ghost dist0 = dist@;
                        let ghost work1 = work@;
                        proof {
                            lemma_target_index_unique(edges, j as int);
                            assert(graph.has_edge(n, v) && graph.weight(n, v) == c);
                        }
                        if new <= weight_limit as u64 {
                            let better = match dist.get(&v) {
                                Some(d) => new < *d as u64,
                                None => true,
                            };
                            if better {
                                let nw = new as u32;
                                dist.insert(v, nw);
                                work.push((nw, v));
                                proof {
                                    assert(v != n);
                                    assert(v != start) by {
                                        if v == start {
                                            assert(dist0[start] == 0);
                                        }
                                    }
                                    assert(!pushed.contains((v, nw)));
                                    pushed = pushed.insert((v, nw));
                                    let p = choose|p: Seq<u32>| #[trigger]
                                        walk_between(graph.arcs(), p, start, n) && walk_weight(graph, p) <= dist0[n] as int;
                                    lemma_walk_push(graph.arcs(), p, start, n, v);
                                    lemma_weight_push(graph, p, v);
                                    assert(walk_between(graph.arcs(), p.push(v), start, v) && walk_weight(
                                        graph,
                                        p.push(v),
                                    ) <= nw as int);
                                    assert(work@[work@.len() - 1] == (nw, v));
                                    assert forall|k: int| 0 <= k < work@.len() implies dist@.contains_key(
                                        (#[trigger] work@[k]).1,
                                    ) && dist@[work@[k].1] <= work@[k].0 <= limit by {
                                        if k < work1.len() {
                                            assert(work@[k] == work1[k]);
                                        }
                                    }
                                    assert forall|m: u32| m != n && #[trigger] dist@.contains_key(m) implies relaxed(
                                        graph,
                                        dist@,
                                        limit,
                                        m,
                                    ) || exists|k: int| 0 <= k < work@.len() && #[trigger] work@[k] == (dist@[m], m) by {
                                        if m == v {
                                            assert(work@[work@.len() - 1] == (dist@[m], m));
                                        } else if relaxed(graph, dist0, limit, m) {
                                            assert forall|x: u32| #[trigger]
                                                graph.has_edge(m, x) && dist@[m] + graph.weight(m, x)
                                                    <= limit implies dist@.contains_key(x) && dist@[x] <= dist@[m]
                                                + graph.weight(m, x) by {
                                                assert(dist0.contains_key(x) && dist0[x] <= dist0[m] + graph.weight(m, x));
                                            }
                                        } else {
                                            let k = choose|k: int| 0 <= k < work1.len() && #[trigger] work1[k] == (dist0[m], m);
                                            assert(work@[k] == work1[k]);
                                        }
                                    }
                                    assert forall|i: int|
                                        0 <= i < j + 1 && w + (#[trigger] edges[i]).weight
                                            <= limit implies dist@.contains_key(edges[i].target()) && dist@[edges[i].target()]
                                        <= w + edges[i].weight by {
                                        if i < j {
                                            assert(dist0.contains_key(edges[i].target()));
                                        }
                                    }
                                    assert(dist@.contains_key(destination) ==> exists|k: int|
                                        0 <= k < work@.len() && (#[trigger] work@[k]).1 == destination) by {
                                        if v == destination {
                                            assert(work@[work@.len() - 1].1 == destination);
                                        } else if dist@.contains_key(destination) {
                                            let k = choose|k: int|
                                                0 <= k < work1.len() && (#[trigger] work1[k]).1 == destination;
                                            assert(work@[k] == work1[k]);
                                        }
                                    } 
                                }
                            }
                        }
                        j += 1;
                    }
                    proof {
                        assert(relaxed(graph, dist@, limit, n)) by {
                            assert forall|v: u32| #[trigger]
                                graph.has_edge(n, v) && dist@[n] + graph.weight(n, v) <= limit implies dist@.contains_key(
                                v,
                            ) && dist@[v] <= dist@[n] + graph.weight(n, v) by {
                                let i = target_index(edges, v);
                                assert(0 <= i < edges.len() && edges[i].target() == v);
                            }
                        }
                    }
                },
            }
        } else {
            proof {
                assert forall|m: u32| #[trigger] dist@.contains_key(m) implies relaxed(graph, dist@, limit, m)
                    || exists|k: int| 0 <= k < work@.len() && #[trigger] work@[k] == (dist@[m], m) by {
                    if !relaxed(graph, dist@, limit, m) {
                        let k = choose|k: int| 0 <= k < work0.len() && #[trigger] work0[k] == (dist@[m], m);
                        assert(work@[k] == work0[k]);
                    }
                }
                assert(dist@.contains_key(destination) ==> exists|k: int|
                    0 <= k < work@.len() && (#[trigger] work@[k]).1 == destination) by {
                    if dist@.contains_key(destination) {
                        let k = choose|k: int| 0 <= k < work0.len() && (#[trigger] work0[k]).1 == destination;
                        assert(work@[k] == work0[k]);
                    }
                }
            }
        }
        proof {
            lemma_pairs_bound(pushed);
        }
    }
    proof {
        assert(!within(graph, start, destination, limit)) by {
            if within(graph, start, destination, limit) {
                let p = choose|p: Seq<u32>| #[trigger]
                    walk_between(graph.arcs(), p, start, destination) && walk_weight(graph, p) <= limit;
                assert forall|n: u32| #[trigger] dist@.contains_key(n) implies relaxed(graph, dist@, limit, n) by {}
                lemma_relaxed_covers(graph, dist@, limit, p, p.len() - 1);
            }
        }
    }
    false
}

/// Whether a walk of weight at most `weight_limit` leads from `start` to `destination` in
/// an undirected graph.
///
/// `GraphMustBeUndirected` where the graph is directed.
pub fn task_8_1<T>(graph: &Graph<T>, start: u32, destination: u32, weight_limit: u32) -> (r: Result<
    bool,
    GraphError,
>)
    requires
        graph.wf(),
    ensures
        r is Ok <==> !graph.directed(),
        r matches Err(e) ==> e.spec_kind() == GraphKindError::GraphMustBeUndirected,
        r matches Ok(b) ==> b == within(graph, start, destination, weight_limit as int),
{
    if graph.get_is_directed() {
        return Err(GraphError::new(GraphKindError::GraphMustBeUndirected, "the graph must be undirected"));
    }
    Ok(deikstra(graph, start, destination, weight_limit))
}

} // verus!
