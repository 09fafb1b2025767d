//! Degrees: how many edges lead to a node, and how many leave each node.

use vstd::prelude::*;
use crate::counting::{chosen, lemma_chosen_all, lemma_chosen_none, lemma_chosen_step, lemma_ids_without_one, Property};
use crate::error::{GraphError, GraphKindError};
use crate::graph::Graph;
use crate::paths::lemma_distinct_ids_bound;

verus! {

/// The nodes with an edge to `v`.
pub open spec fn predecessors<T>(g: &Graph<T>, v: u32) -> Set<u32> {
    Set::new(|u: u32| g.has_edge(u, v))
}

/// The nodes other than `v` with an edge to `v`.
pub open spec fn strict_predecessors<T>(g: &Graph<T>, v: u32) -> Set<u32> {
    Set::new(|u: u32| u != v && g.has_edge(u, v))
}

/// The number of nodes other than `node_index` from which an edge leads to `node_index`.
/// A loop at the node does not count.
pub fn task_1_4<T>(graph: &Graph<T>, node_index: &u32) -> (n: u32)
    requires
        graph.wf(),
    ensures
        strict_predecessors(graph, *node_index).finite(),
        n == strict_predecessors(graph, *node_index).len(),
{
    let v = *node_index;
    let ids = graph.node_ids();
    let ghost p: Property = |u: u32| u != v && graph.has_edge(u, v);
    let mut count: u32 = 0;
    let mut i: usize = 0;
    proof {
        lemma_chosen_none(ids@, p);
        lemma_distinct_ids_bound(ids@);
    }
    while i < ids.len()
        invariant
            i <= ids@.len(),
            ids@.len() <= 0x1_0000_0000,
            graph.wf(),
            ids@.no_duplicates(),
            p == (|u: u32| u != v && graph.has_edge(u, v)),
            chosen(ids@, i as int, p).finite(),
            count == chosen(ids@, i as int, p).len(),
        decreases ids@.len() - i,
    {
        let u = ids[i];
        proof {
            lemma_chosen_step(ids@, i as int, p);
            lemma_ids_without_one(chosen(ids@, i + 1, p), v);
        }
        if u != v && graph.contains_edge(u, v) {
            count += 1;
        }
        i += 1;
    }
    proof {
        lemma_chosen_all(ids@, p);
        assert(chosen(ids@, ids@.len() as int, p) =~= strict_predecessors(graph, v)) by {
            assert forall|u: u32| p(u) implies ids@.contains(u) by {
                assert(graph.adj().contains_key(u));
                assert(graph.nodes().dom().contains(u));
                assert(ids@.to_set().contains(u));
            }
        }
    }
    count
}

/// The in-degree of `node_index` in a directed graph: the number of nodes from which an edge
/// leads to it, the node itself among them where it has a loop.
///
/// `GraphMustBeDirected` where the graph is undirected.
pub fn task_2_4<T>(graph: &Graph<T>, node_index: &u32) -> (r: Result<u64, GraphError>)
    requires
        graph.wf(),
    ensures
        r is Ok <==> graph.directed(),
        r matches Err(e) ==> e.spec_kind() == GraphKindError::GraphMustBeDirected,
        r matches Ok(n) ==> predecessors(graph, *node_index).finite() && n == predecessors(
            graph,
            *node_index,
        ).len(),
{
    if !graph.get_is_directed() {
        return Err(GraphError::new(GraphKindError::GraphMustBeDirected, "the graph must be directed"));
    }
    let v = *node_index;
    let ids = graph.node_ids();
    let ghost p: Property = |u: u32| graph.has_edge(u, v);
    let mut count: u64 = 0;
    let mut i: usize = 0;
    proof {
        lemma_chosen_none(ids@, p);
        lemma_distinct_ids_bound(ids@);
    }
    while i < ids.len()
        invariant
            i <= ids@.len(),
            ids@.len() <= 0x1_0000_0000,
            graph.wf(),
            ids@.no_duplicates(),
            p == (|u: u32| graph.has_edge(u, v)),
            chosen(ids@, i as int, p).finite(),
            count == chosen(ids@, i as int, p).len(),
            count <= i,
        decreases ids@.len() - i,
    {
        proof {
            lemma_chosen_step(ids@, i as int, p);
        }
        if graph.contains_edge(ids[i], v) {
            count += 1;
        }
        i += 1;
    }
    proof {
        lemma_chosen_all(ids@, p);
        assert(chosen(ids@, ids@.len() as int, p) =~= predecessors(graph, v)) by {
            assert forall|u: u32| p(u) implies ids@.contains(u) by {
                assert(graph.adj().contains_key(u));
                assert(graph.nodes().dom().contains(u));
                assert(ids@.to_set().contains(u));
            }
        }
    }
    Ok(count)
}

/// The ids of the first components of `table`, in order.
pub open spec fn table_ids(table: Seq<(u32, usize)>) -> Seq<u32> {
    Seq::new(table.len(), |i: int| table[i].0)
}

/// The degree of every node of a directed graph: each node once, in no particular order,
/// beside the number of edges that leave it.
///
/// `GraphMustBeDirected` where the graph is undirected.
pub fn task_3_5<T>(graph: &Graph<T>) -> (r: Result<Vec<(u32, usize)>, GraphError>)
    requires
        graph.wf(),
    ensures
        r is Ok <==> graph.directed(),
        r matches Err(e) ==> e.spec_kind() == GraphKindError::GraphMustBeDirected,
        r matches Ok(table) ==> {
            &&& table_ids(table@).no_duplicates()
            &&& table_ids(table@).to_set() == graph.nodes().dom()
            &&& forall|i: int|
                0 <= i < table@.len() ==> (#[trigger] table@[i]).1 == graph.adj()[table@[i].0].len()
        },
{
    if !graph.get_is_directed() {
        return Err(GraphError::new(GraphKindError::GraphMustBeDirected, "the graph must be directed"));
    }
    let ids = graph.node_ids();
    let mut table: Vec<(u32, usize)> = Vec::new();
    let mut i: usize = 0;
    while i < ids.len()
        invariant
            i <= ids@.len(),
            graph.wf(),
            ids@.to_set() == graph.nodes().dom(),
            table@.len() == i,
            forall|j: int| 0 <= j < i ==> (#[trigger] table@[j]).0 == ids@[j],
            forall|j: int| 0 <= j < i ==> (#[trigger] table@[j]).1 == graph.adj()[table@[j].0].len(),
        decreases ids@.len() - i,
    {
        let id = ids[i];
        proof {
            assert(ids@.to_set().contains(ids@[i as int]));
            assert(graph.adj().dom().contains(id));
        }
        let o = graph.get_adjacency(&id);
        let a = o.unwrap();
        table.push((id, a.len()));
        i += 1;
    }
    proof {
        assert(table_ids(table@) =~= ids@);
    }
    Ok(table)
}

} // verus!
