//! A spanning forest of an undirected graph, grown edge by edge.

use vstd::prelude::*;
use crate::error::{GraphError, GraphKindError};
use crate::graph::{edge_before, lemma_edge_before_all, lemma_edge_before_next, lemma_edge_before_step, Graph};
use crate::node::node_cloned;
use crate::paths::{
    lemma_reach_self, lemma_reach_step, lemma_reach_symmetric, lemma_reach_trans, lemma_walk_mono, reachable,
    walk_between, Relation,
};
use crate::search::{relation, search};

verus! {

/// The relation that joins the two ends of every pair of `acc`, both ways.
pub open spec fn links_of(acc: Seq<(u32, u32)>) -> Relation {
    |a: u32, b: u32| exists|k: int| 0 <= k < acc.len() && (#[trigger] acc[k] == (a, b) || acc[k] == (b, a))
}

/// Each pair of `acc` joins two nodes that the pairs before it do not connect: taken as
/// edges, the pairs close no cycle.
pub open spec fn joined_apart(acc: Seq<(u32, u32)>) -> bool {
    forall|i: int|
        0 <= i < acc.len() ==> !reachable(links_of(acc.take(i)), (#[trigger] acc[i]).0, acc[i].1)
}

/// The edges of the graph are those of a sequence of pairs that closes no cycle.
pub open spec fn built_as_forest<T>(t: &Graph<T>) -> bool {
    exists|acc: Seq<(u32, u32)>| #[trigger]
        joined_apart(acc) && forall|a: u32, b: u32| t.has_edge(a, b) <==> #[trigger] links_of(acc)(a, b)
}

/// `t` spans `g`: it has the nodes of `g`, its edges are edges of `g` read either way and
/// close no cycle, and whatever an edge of `g` joins is connected in `t`.
pub open spec fn spans<T: Clone>(t: &Graph<T>, g: &Graph<T>) -> bool {
    &&& t.nodes().dom() == g.nodes().dom()
    &&& forall|k: u32| #[trigger] g.nodes().contains_key(k) ==> node_cloned(g.nodes()[k], t.nodes()[k])
    &&& forall|a: u32, b: u32| #[trigger]
        t.has_edge(a, b) ==> a != b && ((g.has_edge(a, b) && t.weight(a, b) == g.weight(a, b)) || (g.has_edge(b, a)
            && t.weight(a, b) == g.weight(b, a)))
    &&& built_as_forest(t)
    &&& forall|a: u32, b: u32| #[trigger] g.has_edge(a, b) ==> reachable(t.arcs(), a, b)
}

proof fn lemma_links_push(acc: Seq<(u32, u32)>, u: u32, v: u32)
    ensures
        forall|a: u32, b: u32| #[trigger]
            links_of(acc.push((u, v)))(a, b) <==> links_of(acc)(a, b) || (a == u && b == v) || (a == v && b == u),
{
    let next = acc.push((u, v));
    assert forall|a: u32, b: u32| #[trigger]
        links_of(next)(a, b) <==> links_of(acc)(a, b) || (a == u && b == v) || (a == v && b == u) by {
        if links_of(next)(a, b) {
            let k = choose|k: int| 0 <= k < next.len() && (#[trigger] next[k] == (a, b) || next[k] == (b, a));
            if k < acc.len() {
                assert(acc[k] == (a, b) || acc[k] == (b, a));
            }
        }
        if links_of(acc)(a, b) {
            let k = choose|k: int| 0 <= k < acc.len() && (#[trigger] acc[k] == (a, b) || acc[k] == (b, a));
            assert(next[k] == (a, b) || next[k] == (b, a));
        }
        if (a == u && b == v) || (a == v && b == u) {
            assert(next[next.len() - 1] == (a, b) || next[next.len() - 1] == (b, a));
        }
    }
}

proof fn lemma_joined_apart_push(acc: Seq<(u32, u32)>, u: u32, v: u32)
    requires
        joined_apart(acc),
        !reachable(links_of(acc), u, v),
    ensures
        joined_apart(acc.push((u, v))),
{
    let next = acc.push((u, v));
    assert forall|i: int| 0 <= i < next.len() implies !reachable(
        links_of(next.take(i)),
        (#[trigger] next[i]).0,
        next[i].1,
    ) by {
        if i < acc.len() {
            assert(next.take(i) =~= acc.take(i));
            assert(next[i] == acc[i]);
        } else {
            assert(next.take(i) =~= acc);
        }
    }
}

/// What a walk connects once the pair `(a, b)` has joined a relation: what was connected
/// before, or what was connected to the two ends of the pair.
proof fn lemma_walk_over_new_pair(old: Relation, new: Relation, a: u32, b: u32, w: Seq<u32>, x: u32, y: u32)
    requires
        forall|p: u32, q: u32| #[trigger] new(p, q) <==> old(p, q) || (p == a && q == b) || (p == b && q == a),
        walk_between(new, w, x, y),
    ensures
        reachable(old, x, y) || (reachable(old, x, a) && reachable(old, b, y)) || (reachable(old, x, b) && reachable(
            old,
            a,
            y,
        )),
    decreases w.len(),
{
    if w.len() == 1 {
        lemma_reach_self(old, x);
    } else {
        let front = w.drop_last();
        let z = front[front.len() - 1];
        assert(walk_between(new, front, x, z)) by {
            assert forall|i: int| 0 <= i < front.len() - 1 implies new(#[trigger] front[i], front[i + 1]) by {
                assert(new(w[i], w[i + 1]));
            }
        }
        lemma_walk_over_new_pair(old, new, a, b, front, x, z);
        assert(new(w[w.len() - 2], w[w.len() - 2 + 1]));
        assert(new(z, y));
        lemma_reach_self(old, a);
        lemma_reach_self(old, b);
        if old(z, y) {
            if reachable(old, x, z) {
                lemma_reach_step(old, x, z, y);
            } else if reachable(old, x, a) && reachable(old, b, z) {
                lemma_reach_step(old, b, z, y);
            } else {
                lemma_reach_step(old, a, z, y);
            }
        }
    }
}

/// The links of a sequence go both ways, and hold the links of the sequence without one of
/// its pairs.
proof fn lemma_links_shape(acc: Seq<(u32, u32)>, k: int)
    requires
        0 <= k < acc.len(),
    ensures
        forall|p: u32, q: u32| #[trigger] links_of(acc)(p, q) ==> links_of(acc)(q, p),
        forall|p: u32, q: u32| #[trigger] links_of(acc.remove(k))(p, q) ==> links_of(acc)(p, q),
        links_of(acc)(acc[k].0, acc[k].1),
{
    let whole = links_of(acc);
    let less = acc.remove(k);
    assert forall|p: u32, q: u32| #[trigger] whole(p, q) implies whole(q, p) by {
        let i = choose|i: int| 0 <= i < acc.len() && (#[trigger] acc[i] == (p, q) || acc[i] == (q, p));
        assert(acc[i] == (q, p) || acc[i] == (p, q));
    }
    assert forall|p: u32, q: u32| #[trigger] links_of(less)(p, q) implies whole(p, q) by {
        let i = choose|i: int| 0 <= i < less.len() && (#[trigger] less[i] == (p, q) || less[i] == (q, p));
        let j = if i < k { i } else { i + 1 };
        assert(acc[j] == (p, q) || acc[j] == (q, p));
    }
    assert(acc[k] == (acc[k].0, acc[k].1));
}

/// Where `u` and `v` are linked, and one is connected to `a` and the other to `b`, `a` is
/// connected to `b`.
proof fn lemma_ends_meet(old: Relation, whole: Relation, a: u32, b: u32, u: u32, v: u32)
    requires
        forall|p: u32, q: u32| #[trigger] old(p, q) ==> whole(p, q),
        forall|p: u32, q: u32| #[trigger] whole(p, q) ==> whole(q, p),
        whole(u, v),
        (reachable(old, u, a) && reachable(old, b, v)) || (reachable(old, u, b) && reachable(old, a, v)),
    ensures
        reachable(whole, a, b),
{
    if reachable(old, u, a) && reachable(old, b, v) {
        lemma_grows(old, whole, u, a);
        lemma_grows(old, whole, b, v);
        lemma_reach_symmetric(whole, u, a);
        lemma_reach_symmetric(whole, b, v);
        lemma_reach_step(whole, a, u, v);
        lemma_reach_trans(whole, a, v, b);
    } else {
        lemma_grows(old, whole, u, b);
        lemma_grows(old, whole, a, v);
        assert(whole(v, u));
        lemma_reach_step(whole, a, v, u);
        lemma_reach_trans(whole, a, u, b);
    }
}

/// In a sequence of pairs that closes no cycle, every pair is a bridge: without it, nothing
/// connects its two ends.
pub proof fn lemma_forest_edges_are_bridges(acc: Seq<(u32, u32)>, k: int)
    requires
        joined_apart(acc),
        0 <= k < acc.len(),
    ensures
        !reachable(links_of(acc.remove(k)), acc[k].0, acc[k].1),
    decreases acc.len(),
{
    let n = acc.len() as int;
    let u = acc[k].0;
    let v = acc[k].1;
    if k == n - 1 {
        assert(acc.remove(k) =~= acc.take(k));
    } else {
        let rest = acc.take(n - 1);
        let a = acc[n - 1].0;
        let b = acc[n - 1].1;
        assert(joined_apart(rest)) by {
            assert forall|i: int| 0 <= i < rest.len() implies !reachable(
                links_of(rest.take(i)),
                (#[trigger] rest[i]).0,
                rest[i].1,
            ) by {
                assert(rest.take(i) =~= acc.take(i));
                assert(rest[i] == acc[i]);
            }
        }
        lemma_forest_edges_are_bridges(rest, k);
        let old = links_of(rest.remove(k));
        let new = links_of(acc.remove(k));
        let whole = links_of(rest);
        assert(!reachable(whole, a, b)) by {
            assert(!reachable(links_of(acc.take(n - 1)), (#[trigger] acc[n - 1]).0, acc[n - 1].1));
        }
        assert(rest[k] == acc[k]);
        assert(!reachable(old, u, v));
        if reachable(new, u, v) {
            let w = choose|w: Seq<u32>| #[trigger] walk_between(new, w, u, v);
            assert(forall|p: u32, q: u32| #[trigger] new(p, q) <==> old(p, q) || (p == a && q == b) || (p == b && q
                == a)) by {
                assert(acc.remove(k) =~= rest.remove(k).push((a, b)));
                lemma_links_push(rest.remove(k), a, b);
            }
            lemma_walk_over_new_pair(old, new, a, b, w, u, v);
            lemma_links_shape(rest, k);
            lemma_ends_meet(old, whole, a, b, u, v);
        }
    }
}

/// What a relation connects, every relation that holds it connects.
proof fn lemma_grows(small: Relation, large: Relation, x: u32, y: u32)
    requires
        forall|p: u32, q: u32| #[trigger] small(p, q) ==> large(p, q),
        reachable(small, x, y),
    ensures
        reachable(large, x, y),
{
    let w = choose|w: Seq<u32>| #[trigger] walk_between(small, w, x, y);
    lemma_walk_mono(small, large, w);
    assert(walk_between(large, w, x, y));
}

/// A spanning forest of an undirected graph: the nodes of the graph, and of its edges, taken
/// in the order in which the graph yields them, each that joins two nodes not connected by
/// the edges taken before. The edges are not taken by weight, so the forest spans the graph
/// but need not be of least weight.
///
/// `GraphMustBeUndirected` where the graph is directed; `NodeNotFound` where an edge leads
/// to an id that is no node.
pub fn task_7_kraskal<T: Clone>(graph: &Graph<T>) -> (r: Result<Graph<T>, GraphError>)
    requires
        graph.wf(),
    ensures
        r is Ok <==> !graph.directed() && graph.closed(),
        r matches Err(e) ==> e.spec_kind() == if graph.directed() {
            GraphKindError::GraphMustBeUndirected
        } else {
            GraphKindError::NodeNotFound
        },
        r matches Ok(t) ==> t.wf() && !t.directed() && t.mirrored() && spans(&t, graph),
{
    if graph.get_is_directed() {
        return Err(GraphError::new(GraphKindError::GraphMustBeUndirected, "the graph must be undirected"));
    }
    let ghost adj = graph.adj();
    let ids = graph.node_ids();
    let mut t: Graph<T> = Graph::empty(false);
    let mut i: usize = 0;
    while i < ids.len()
        invariant
            i <= ids@.len(),
            graph.wf(),
            ids@.no_duplicates(),
            ids@.to_set() == graph.nodes().dom(),
            t.wf(),
            !t.directed(),
            t.mirrored(),
            forall|k: u32| t.nodes().contains_key(k) <==> exists|m: int| 0 <= m < i && #[trigger] ids@[m] == k,
            forall|k: u32| #[trigger] t.nodes().contains_key(k) ==> node_cloned(graph.nodes()[k], t.nodes()[k]),
            forall|a: u32, b: u32| !#[trigger] t.has_edge(a, b),
        decreases ids@.len() - i,
    {
        let id = ids[i];
        proof {
            assert(ids@.to_set().contains(ids@[i as int]));
            assert(!t.nodes().contains_key(id)) by {
                if t.nodes().contains_key(id) {
                    let m = choose|m: int| 0 <= m < i && #[trigger] ids@[m] == id;
                    assert(ids@[m] == ids@[i as int]);
                }
            }
        }
        let o = graph.get_node(&id);
        let n = o.unwrap().clone();
        let ghost before = t;
        match t.add_node(n) {
            Ok(()) => {},
            Err(e) => {
                return Err(e);
            },
        }
        proof {
            assert(graph.nodes()[id].number == id);
            assert forall|k: u32| t.nodes().contains_key(k) <==> exists|m: int| 0 <= m < i + 1 && #[trigger] ids@[m]
                == k by {
                if before.nodes().contains_key(k) {
                    let m = choose|m: int| 0 <= m < i && #[trigger] ids@[m] == k;
                    assert(0 <= m < i + 1);
                }
                if exists|m: int| 0 <= m < i + 1 && #[trigger] ids@[m] == k {
                    let m = choose|m: int| 0 <= m < i + 1 && #[trigger] ids@[m] == k;
                    if m < i {
                        assert(before.nodes().contains_key(k));
                    }
                }
            }
            assert forall|a: u32, b: u32| !#[trigger] t.has_edge(a, b) by {
                assert(!before.has_edge(a, b));
                if a == id {
                    assert(t.adj()[a] =~= Seq::empty());
                }
            }
        }
        i += 1;
    }
    proof {
        assert(t.nodes().dom() =~= graph.nodes().dom()) by {
            assert forall|k: u32| t.nodes().dom().contains(k) <==> graph.nodes().dom().contains(k) by {
                if t.nodes().contains_key(k) {
                    let m = choose|m: int| 0 <= m < ids@.len() && #[trigger] ids@[m] == k;
                    assert(ids@.to_set().contains(ids@[m]));
                }
                if graph.nodes().dom().contains(k) {
                    assert(ids@.to_set().contains(k));
                    let m = choose|m: int| 0 <= m < ids@.len() && ids@[m] == k;
                    assert(ids@[m] == k);
                }
            }
        }
        lemma_edge_before_all(adj, ids@);
    }
    let ghost mut acc: Seq<(u32, u32)> = Seq::empty();
    let mut i: usize = 0;
    while i < ids.len()
        invariant
            i <= ids@.len(),
            graph.wf(),
            !graph.directed(),
            adj == graph.adj(),
            ids@.no_duplicates(),
            ids@.to_set() == graph.nodes().dom(),
            t.wf(),
            !t.directed(),
            t.mirrored(),
            t.nodes().dom() == graph.nodes().dom(),
            forall|k: u32| #[trigger] graph.nodes().contains_key(k) ==> node_cloned(graph.nodes()[k], t.nodes()[k]),
            forall|a: u32, b: u32| #[trigger]
                t.has_edge(a, b) ==> a != b && ((graph.has_edge(a, b) && t.weight(a, b) == graph.weight(a, b)) || (
                graph.has_edge(b, a) && t.weight(a, b) == graph.weight(b, a))),
            joined_apart(acc),
            forall|a: u32, b: u32| t.has_edge(a, b) <==> #[trigger] links_of(acc)(a, b),
            forall|a: u32, b: u32| #[trigger]
                edge_before(adj, ids@, i as int, 0, a, b) ==> graph.nodes().contains_key(b) && reachable(
                    t.arcs(),
                    a,
                    b,
                ),
        decreases ids@.len() - i,
    {
        let u = ids[i];
        proof {
            assert(ids@.to_set().contains(ids@[i as int]));
            assert(graph.adj().dom().contains(u));
        }
        let on = graph.get_node(&u);
        let node = on.unwrap();
        let oa = graph.get_adjacency(&u);
        let a = oa.unwrap();
        let ghost edges = a@;
        let mut j: usize = 0;
        while j < a.len()
            invariant
                j <= edges.len(),
                i < ids@.len(),
                u == ids@[i as int],
                node.number == u,
                edges == a@,
                adj.contains_key(u),
                edges == adj[u],
                graph.wf(),
                !graph.directed(),
                adj == graph.adj(),
                ids@.no_duplicates(),
                ids@.to_set() == graph.nodes().dom(),
                t.wf(),
                !t.directed(),
                t.mirrored(),
                t.nodes().dom() == graph.nodes().dom(),
                forall|k: u32| #[trigger]
                    graph.nodes().contains_key(k) ==> node_cloned(graph.nodes()[k], t.nodes()[k]),
                forall|a: u32, b: u32| #[trigger]
                    t.has_edge(a, b) ==> a != b && ((graph.has_edge(a, b) && t.weight(a, b) == graph.weight(a, b))
                        || (graph.has_edge(b, a) && t.weight(a, b) == graph.weight(b, a))),
                joined_apart(acc),
                forall|a: u32, b: u32| t.has_edge(a, b) <==> #[trigger] links_of(acc)(a, b),
                forall|a: u32, b: u32| #[trigger]
                    edge_before(adj, ids@, i as int, j as int, a, b) ==> graph.nodes().contains_key(b) && reachable(
                        t.arcs(),
                        a,
                        b,
                    ),
            decreases edges.len() - j,
        {
            let e = a.edge(j);
            let v = e.node.number;
            let ghost t0 = t;
            let ghost acc0 = acc;
            proof {
                lemma_edge_before_step(adj, ids@, i as int, j as int);
                crate::adjacency::lemma_target_index_unique(edges, j as int);
                assert(graph.has_edge(u, v));
                assert(e.weight == graph.weight(u, v));
            }
            if graph.get_node(&v).is_none() {
                return Err(GraphError::new(GraphKindError::NodeNotFound, "an edge leads to no node"));
            }
            let mut take = false;
            if u != v {
                if t.contains_edge(u, v) {
                    take = true;
                } else {
                    let tree = search(&t, u, Some(v));
                    proof {
                        assert(relation(&t) =~= t.arcs());
                    }
                    if !tree.reached(v) {
                        take = true;
                        proof {
                            assert(links_of(acc) =~= t.arcs());
                            lemma_joined_apart_push(acc, u, v);
                            lemma_links_push(acc, u, v);
                            acc = acc.push((u, v));
                        }
                    }
                }
            }
            if take {
                proof {
                    assert(t.adj().dom().contains(u));
                    assert(t.adj().dom().contains(v));
                }
                match t.add_edge(node, e) {
                    Ok(()) => {},
                    Err(err) => {
                        return Err(err);
                    },
                }
                proof {
                    assert forall|x: u32, y: u32| t.has_edge(x, y) <==> #[trigger] links_of(acc)(x, y) by {
                        assert(t.has_edge(x, y) <==> t0.has_edge(x, y) || (x == u && y == v) || (x == v && y == u));
                        assert(t0.has_edge(x, y) <==> links_of(acc0)(x, y));
                        if t0.has_edge(u, v) {
                            assert(t0.has_edge(v, u));
                        }
                    }
                    assert forall|x: u32, y: u32| #[trigger] t.has_edge(x, y) implies x != y && ((graph.has_edge(x, y)
                        && t.weight(x, y) == graph.weight(x, y)) || (graph.has_edge(y, x) && t.weight(x, y)
                        == graph.weight(y, x))) by {
                        if !((x == u && y == v) || (x == v && y == u)) {
                            assert(t0.has_edge(x, y));
                            assert(t.weight(x, y) == t0.weight(x, y));
                        }
                    }
                }
            }
            proof {
                assert forall|x: u32, y: u32| #[trigger] (t0.arcs())(x, y) implies (t.arcs())(x, y) by {
                    if take {
                        assert(t.has_edge(x, y) <==> t0.has_edge(x, y) || (x == u && y == v) || (x == v && y == u));
                    }
                }
                assert(reachable(t.arcs(), u, v)) by {
                    lemma_reach_self(t.arcs(), u);
                    if u != v {
                        if take {
                            assert(t.has_edge(u, v));
                            assert((t.arcs())(u, v));
                            lemma_reach_step(t.arcs(), u, u, v);
                        } else {
                            assert(reachable(relation(&t0), u, v));
                            assert(relation(&t0) =~= t.arcs());
                        }
                    }
                }
                assert forall|x: u32, y: u32| #[trigger]
                    edge_before(adj, ids@, i as int, j + 1, x, y) implies graph.nodes().contains_key(y) && reachable(
                    t.arcs(),
                    x,
                    y,
                ) by {
                    if edge_before(adj, ids@, i as int, j as int, x, y) {
                        assert(reachable(t0.arcs(), x, y));
                        let w = choose|w: Seq<u32>| #[trigger] walk_between(t0.arcs(), w, x, y);
                        lemma_walk_mono(t0.arcs(), t.arcs(), w);
                        assert(walk_between(t.arcs(), w, x, y));
                    }
                }
            }
            j += 1;
        }
        proof {
            lemma_edge_before_next(adj, ids@, i as int);
        }
        i += 1;
    }
    proof {
        assert(built_as_forest(&t)) by {
            assert(joined_apart(acc) && forall|a: u32, b: u32| t.has_edge(a, b) <==> #[trigger] links_of(acc)(a, b));
        }
        assert(graph.closed()) by {
            assert forall|a: u32, b: u32| #[trigger] graph.has_edge(a, b) implies graph.nodes().contains_key(b) by {
                assert(edge_before(adj, ids@, ids@.len() as int, 0, a, b));
            }
        }
        assert forall|a: u32, b: u32| #[trigger] graph.has_edge(a, b) implies reachable(t.arcs(), a, b) by {
            assert(edge_before(adj, ids@, ids@.len() as int, 0, a, b));
        }
    }
    Ok(t)
}

} // verus!
