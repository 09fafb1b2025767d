//! The intersection of two graphs.

use vstd::prelude::*;
use crate::adjacency::lemma_target_index_unique;
use crate::error::GraphError;
use crate::graph::{
    arc, arc_edge, edge_before, lemma_edge_before_all, lemma_edge_before_next, lemma_edge_before_step,
    lemma_with_edge, Graph,
};
use crate::node::{edge_cloned, node_cloned};

verus! {

/// Both graphs have a node `k`.
pub open spec fn shared<T>(g1: &Graph<T>, g2: &Graph<T>, k: u32) -> bool {
    g1.nodes().contains_key(k) && g2.nodes().contains_key(k)
}

/// Both graphs have an edge from `a` to `b`, between nodes that both have.
pub open spec fn shared_edge<T>(g1: &Graph<T>, g2: &Graph<T>, a: u32, b: u32) -> bool {
    g1.has_edge(a, b) && g2.has_edge(a, b) && shared(g1, g2, a) && shared(g1, g2, b)
}

/// `t` is the intersection of `g1` and `g2`: its nodes are the nodes that both have, with
/// the payloads of `g1`, and its edges are the edges that both have between such nodes, as
/// they stand in `g2`.
pub open spec fn intersects<T: Clone>(t: &Graph<T>, g1: &Graph<T>, g2: &Graph<T>) -> bool {
    &&& forall|k: u32| #[trigger] t.nodes().contains_key(k) <==> shared(g1, g2, k)
    &&& forall|k: u32| #[trigger] t.nodes().contains_key(k) ==> node_cloned(g1.nodes()[k], t.nodes()[k])
    &&& forall|a: u32, b: u32| #[trigger] t.has_edge(a, b) <==> shared_edge(g1, g2, a, b)
    &&& forall|a: u32, b: u32| #[trigger]
        t.has_edge(a, b) ==> edge_cloned(arc_edge(g2.adj(), a, b), arc_edge(t.adj(), a, b))
}

/// The intersection of two graphs. Where one is directed and the other is not, both are
/// made directed first, and stay so.
pub fn task_4_6<T: Clone>(graph_1: &mut Graph<T>, graph_2: &mut Graph<T>) -> (r: Result<Graph<T>, GraphError>)
    requires
        old(graph_1).wf(),
        old(graph_2).wf(),
    ensures
        final(graph_1).wf(),
        final(graph_2).wf(),
        final(graph_1).nodes() == old(graph_1).nodes(),
        final(graph_1).adj() == old(graph_1).adj(),
        final(graph_2).nodes() == old(graph_2).nodes(),
        final(graph_2).adj() == old(graph_2).adj(),
        final(graph_1).directed() == (old(graph_1).directed() || old(graph_2).directed()),
        final(graph_2).directed() == (old(graph_1).directed() || old(graph_2).directed()),
        r is Ok,
        r matches Ok(t) ==> {
            &&& t.wf()
            &&& t.directed() == final(graph_1).directed()
            &&& intersects(&t, final(graph_1), final(graph_2))
            &&& final(graph_1).mirrored() && final(graph_2).mirrored() ==> t.mirrored()
        },
{
    if graph_1.get_is_directed() != graph_2.get_is_directed() {
        graph_1.to_directed();
        graph_2.to_directed();
    }
    let g1 = &*graph_1;
    let g2 = &*graph_2;
    let ghost adj2 = g2.adj();
    let mut t: Graph<T> = Graph::empty(g1.get_is_directed());
    let ids = g2.node_ids();
    let mut i: usize = 0;
    while i < ids.len()
        invariant
            i <= ids@.len(),
            g1.wf(),
            g2.wf(),
            ids@.no_duplicates(),
            ids@.to_set() == g2.nodes().dom(),
            t.wf(),
            t.directed() == g1.directed(),
            forall|k: u32|
                t.nodes().contains_key(k) <==> g1.nodes().contains_key(k) && exists|m: int|
                    0 <= m < i && #[trigger] ids@[m] == k,
            forall|k: u32| #[trigger] t.nodes().contains_key(k) ==> node_cloned(g1.nodes()[k], t.nodes()[k]),
            forall|a: u32, b: u32| !#[trigger] t.has_edge(a, b),
        decreases ids@.len() - i,
    {
        let id = ids[i];
        let ghost before = t;
        match g1.get_node(&id) {
            None => {},
            Some(n) => {
                proof {
                    assert(!t.nodes().contains_key(id)) by {
                        if t.nodes().contains_key(id) {
                            let m = choose|m: int| 0 <= m < i && #[trigger] ids@[m] == id;
                            assert(ids@[m] == ids@[i as int]);
                        }
                    }
                    assert(g1.nodes()[id].number == id);
                }
                match t.add_node(n.clone()) {
                    Ok(()) => {},
                    Err(e) => {
                        return Err(e);
                    },
                }
                proof {
                    assert forall|a: u32, b: u32| !#[trigger] t.has_edge(a, b) by {
                        assert(!before.has_edge(a, b));
                        if a == id {
                            assert(t.adj()[a] =~= Seq::empty());
                        }
                    }
                }
            },
        }
        proof {
            assert forall|k: u32|
                t.nodes().contains_key(k) <==> g1.nodes().contains_key(k) && exists|m: int|
                    0 <= m < i + 1 && #[trigger] ids@[m] == k by {
                if before.nodes().contains_key(k) {
                    let m = choose|m: int| 0 <= m < i && #[trigger] ids@[m] == k;
                    assert(0 <= m < i + 1);
                }
                if g1.nodes().contains_key(k) && exists|m: int| 0 <= m < i + 1 && #[trigger] ids@[m] == k {
                    let m = choose|m: int| 0 <= m < i + 1 && #[trigger] ids@[m] == k;
                    if m < i {
                        assert(before.nodes().contains_key(k));
                    }
                }
            }
        }
        i += 1;
    }
    proof {
        assert forall|k: u32| #[trigger] t.nodes().contains_key(k) <==> shared(g1, g2, k) by {
            if t.nodes().contains_key(k) {
                let m = choose|m: int| 0 <= m < ids@.len() && #[trigger] ids@[m] == k;
                assert(ids@.to_set().contains(ids@[m]));
            }
            if shared(g1, g2, k) {
                assert(ids@.to_set().contains(k));
                let m = choose|m: int| 0 <= m < ids@.len() && ids@[m] == k;
                assert(ids@[m] == k);
            }
        }
        lemma_edge_before_all(adj2, ids@);
    }
    let mut i: usize = 0;
    while i < ids.len()
        invariant
            i <= ids@.len(),
            g1.wf(),
            g2.wf(),
            adj2 == g2.adj(),
            ids@.no_duplicates(),
            ids@.to_set() == g2.nodes().dom(),
            t.wf(),
            t.directed() == g1.directed(),
            forall|k: u32| #[trigger] t.nodes().contains_key(k) <==> shared(g1, g2, k),
            forall|k: u32| #[trigger] t.nodes().contains_key(k) ==> node_cloned(g1.nodes()[k], t.nodes()[k]),
            forall|a: u32, b: u32| #[trigger]
                t.has_edge(a, b) <==> shared_edge(g1, g2, a, b) && edge_before(adj2, ids@, i as int, 0, a, b),
            forall|a: u32, b: u32| #[trigger]
                t.has_edge(a, b) ==> edge_cloned(arc_edge(adj2, a, b), arc_edge(t.adj(), a, b)),
        decreases ids@.len() - i,
    {
        let u = ids[i];
        proof {
            assert(ids@.to_set().contains(ids@[i as int]));
            assert(g2.adj().dom().contains(u));
        }
        let oa = g2.get_adjacency(&u);
        let a = oa.unwrap();
        let ghost edges = a@;
        let here = g1.get_node(&u).is_some();
        let mut j: usize = 0;
        while j < a.len()
            invariant
                j <= edges.len(),
                i < ids@.len(),
                u == ids@[i as int],
                here == g1.nodes().contains_key(u),
                g2.nodes().contains_key(u),
                edges == a@,
                adj2.contains_key(u),
                edges == adj2[u],
                g1.wf(),
                g2.wf(),
                adj2 == g2.adj(),
                ids@.no_duplicates(),
                t.wf(),
                t.directed() == g1.directed(),
                forall|k: u32| #[trigger] t.nodes().contains_key(k) <==> shared(g1, g2, k),
                forall|k: u32| #[trigger] t.nodes().contains_key(k) ==> node_cloned(g1.nodes()[k], t.nodes()[k]),
                forall|a: u32, b: u32| #[trigger]
                    t.has_edge(a, b) <==> shared_edge(g1, g2, a, b) && edge_before(adj2, ids@, i as int, j as int, a, b),
                forall|a: u32, b: u32| #[trigger]
                    t.has_edge(a, b) ==> edge_cloned(arc_edge(adj2, a, b), arc_edge(t.adj(), a, b)),
            decreases edges.len() - j,
        {
            let e = a.edge(j);
            let v = e.node.number;
            let ghost t0 = t;
            proof {
                lemma_edge_before_step(adj2, ids@, i as int, j as int);
                lemma_target_index_unique(edges, j as int);
                assert(g2.has_edge(u, v) && arc_edge(adj2, u, v) == *e);
            }
            if here && g1.contains_edge(u, v) && g1.get_node(&v).is_some() && g2.get_node(&v).is_some() {
                let c = e.clone();
                proof {
                    assert(t.nodes().dom().contains(u));
                    assert(t.adj().dom().contains(u));
                    lemma_with_edge(t.adj(), u, c);
                }
                t.put_edge(u, c);
                proof {
                    assert forall|x: u32, y: u32| #[trigger]
                        t.has_edge(x, y) implies edge_cloned(arc_edge(adj2, x, y), arc_edge(t.adj(), x, y)) by {
                        if !(x == u && y == v) {
                            assert(t0.has_edge(x, y));
                            assert(arc_edge(t.adj(), x, y) == arc_edge(t0.adj(), x, y));
                        }
                    }
                    assert forall|k: u32| #[trigger] t.nodes().contains_key(k) <==> shared(g1, g2, k) by {
                        assert(t0.nodes().contains_key(k) <==> shared(g1, g2, k));
                    }
                }
            }
            proof {
                assert forall|x: u32, y: u32| #[trigger]
                    t.has_edge(x, y) <==> shared_edge(g1, g2, x, y) && edge_before(adj2, ids@, i as int, j + 1, x, y) by {
                    assert(t0.has_edge(x, y) <==> shared_edge(g1, g2, x, y) && edge_before(
                        adj2,
                        ids@,
                        i as int,
                        j as int,
                        x,
                        y,
                    ));
                }
            }
            j += 1;
        }
        proof {
            lemma_edge_before_next(adj2, ids@, i as int);
        }
        i += 1;
    }
    proof {
        if g1.mirrored() && g2.mirrored() {
            let ta = t.adj();
            assert forall|a: u32, b: u32| #[trigger] arc(ta, a, b) implies arc(ta, b, a) && arc_edge(ta, b, a).weight
                == arc_edge(ta, a, b).weight by {
                assert(t.has_edge(a, b));
                assert(shared_edge(g1, g2, a, b));
                assert(arc(g1.adj(), a, b));
                assert(arc(g2.adj(), a, b));
                assert(arc(g1.adj(), b, a));
                assert(arc(g2.adj(), b, a));
                assert(shared_edge(g1, g2, b, a));
                assert(edge_before(adj2, ids@, ids@.len() as int, 0, b, a));
                assert(t.has_edge(b, a));
                assert(edge_cloned(arc_edge(adj2, a, b), arc_edge(ta, a, b)));
                assert(edge_cloned(arc_edge(adj2, b, a), arc_edge(ta, b, a)));
            }
        }
        assert forall|a: u32, b: u32| #[trigger] t.has_edge(a, b) <==> shared_edge(g1, g2, a, b) by {
            if shared_edge(g1, g2, a, b) {
                assert(edge_before(adj2, ids@, ids@.len() as int, 0, a, b));
            }
        }
    }
    Ok(t)
}

} // verus!
