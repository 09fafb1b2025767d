//! Whether an undirected graph is connected.

use vstd::prelude::*;
use vstd::set_lib::{lemma_len_subset, lemma_subset_equality};
use crate::error::{GraphError, GraphKindError};
use crate::graph::Graph;
use crate::paths::{lemma_closed_holds_reachable, lemma_reach_symmetric, lemma_reach_trans, reachable};
use crate::search::{relation, search};

verus! {

/// Every node of the graph reaches every other.
pub open spec fn connected<T>(g: &Graph<T>) -> bool {
    forall|u: u32, v: u32|
        g.nodes().contains_key(u) && g.nodes().contains_key(v) ==> #[trigger] reachable(g.arcs(), u, v)
}

/// All that `s` reaches in the graph.
pub open spec fn reach_set<T>(g: &Graph<T>, s: u32) -> Set<u32> {
    Set::new(|v: u32| reachable(g.arcs(), s, v))
}

/// In a graph whose edges all lead to nodes and all have mirrors, to be connected is for some
/// node, and then for every node, to reach as many nodes as the graph has.
pub proof fn lemma_connected_by_count<T>(g: &Graph<T>, s: u32)
    requires
        g.wf(),
        g.closed(),
        g.mirrored(),
        g.nodes().contains_key(s),
    ensures
        reach_set(g, s).finite(),
        connected(g) <==> reach_set(g, s).len() == g.nodes().dom().len(),
{
    let r = g.arcs();
    let nodes = g.nodes().dom();
    let reach = reach_set(g, s);
    assert forall|x: u32, y: u32| nodes.contains(x) && #[trigger] r(x, y) implies nodes.contains(y) by {
        assert(g.has_edge(x, y));
    }
    assert forall|v: u32| reach.contains(v) implies nodes.contains(v) by {
        lemma_closed_holds_reachable(r, nodes, s, v);
    }
    lemma_len_subset(reach, nodes);
    assert forall|x: u32, y: u32| #[trigger] r(x, y) implies r(y, x) by {
        assert(g.has_edge(x, y));
        assert(g.has_edge(y, x));
    }
    if reach.len() == nodes.len() {
        lemma_subset_equality(reach, nodes);
        assert forall|u: u32, v: u32| g.nodes().contains_key(u) && g.nodes().contains_key(v) implies #[trigger] reachable(
            r,
            u,
            v,
        ) by {
            assert(reach.contains(u));
            assert(reach.contains(v));
            lemma_reach_symmetric(r, s, u);
            lemma_reach_trans(r, u, s, v);
        }
    }
    if connected(g) {
        assert forall|v: u32| nodes.contains(v) implies reach.contains(v) by {
            assert(reachable(r, s, v));
        }
        assert(reach =~= nodes);
    }
}

/// Tells whether an undirected graph is connected, by one search from some node: whether
/// that node reaches as many nodes as the graph has. A graph without nodes is connected.
///
/// `GraphMustBeUndirected` where the graph is directed.
pub fn task_6_4<T>(graph: &Graph<T>) -> (r: Result<bool, GraphError>)
    requires
        graph.wf(),
    ensures
        r is Ok <==> !graph.directed(),
        r matches Err(e) ==> e.spec_kind() == GraphKindError::GraphMustBeUndirected,
        r matches Ok(b) ==> (graph.nodes().dom().len() == 0 && b) || exists|s: u32|
            graph.nodes().contains_key(s) && #[trigger] reach_set(graph, s).finite() && b == (reach_set(
                graph,
                s,
            ).len() == graph.nodes().dom().len()),
        r matches Ok(b) ==> (graph.closed() && graph.mirrored() ==> b == connected(graph)),
{
    if graph.get_is_directed() {
        return Err(GraphError::new(GraphKindError::GraphMustBeUndirected, "the graph must be undirected"));
    }
    match graph.get_some_node_index() {
        None => {
            proof {
                assert(graph.nodes().dom() =~= Set::<u32>::empty());
                assert(connected(graph));
            }
            Ok(true)
        },
        Some(s) => {
            let t = search(graph, s, None);
            let b = t.count() == graph.len();
            proof {
                t.lemma_met();
                let reach = reach_set(graph, s);
                assert(relation(graph) =~= graph.arcs());
                assert(t.met().to_set() =~= reach) by {
                    assert forall|v: u32| t.met().to_set().contains(v) <==> reach.contains(v) by {
                        if reach.contains(v) {
                            assert(reachable(relation(graph), s, v));
                            assert(t.visited(v));
                        }
                        if t.met().contains(v) {
                            assert(t.visited(v));
                        }
                    }
                }
                t.met().unique_seq_to_set();
                if graph.closed() && graph.mirrored() {
                    lemma_connected_by_count(graph, s);
                }
            }
            Ok(b)
        },
    }
}

} // verus!
