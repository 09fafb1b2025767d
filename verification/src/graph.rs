//! The graph: a node table, an adjacency per node, and a directedness flag.

use std::collections::HashMap;
use vstd::prelude::*;
use vstd::std_specs::hash::group_hash_axioms;
use vstd::std_specs::iter::IteratorSpec;
use crate::adjacency::{
    distinct_targets, edge_to, has_target, lemma_target_index_unique, lemma_upsert, lemma_without, target_index,
    upsert, without, Adjacency,
};
use crate::error::{GraphError, GraphKindError};
use crate::node::{edge_cloned, node_cloned, Edge, Node};
use crate::paths::Relation;
use crate::search::Arcs;

verus! {

/// The adjacency table `adj` with `e` put into the adjacency of `u`.
pub open spec fn with_edge<T>(adj: Map<u32, Seq<Edge<T>>>, u: u32, e: Edge<T>) -> Map<u32, Seq<Edge<T>>> {
    adj.insert(u, upsert(adj[u], e))
}

/// The adjacency table `adj` without the edge from `u` to `v`.
pub open spec fn without_edge<T>(adj: Map<u32, Seq<Edge<T>>>, u: u32, v: u32) -> Map<u32, Seq<Edge<T>>> {
    adj.insert(u, without(adj[u], v))
}

/// The adjacency table `adj` without the entry of `u` and without any edge that leads to `u`.
pub open spec fn without_node<T>(adj: Map<u32, Seq<Edge<T>>>, u: u32) -> Map<u32, Seq<Edge<T>>> {
    Map::new(|k: u32| adj.contains_key(k) && k != u, |k: u32| without(adj[k], u))
}

/// `e` is the edge that mirrors one of weight `weight` leaving `from`: it leads back to `from`,
/// with the same weight and a payload cloned from `from`'s.
pub open spec fn mirrors<T: Clone>(from: Node<T>, weight: u32, e: Edge<T>) -> bool {
    &&& e.weight == weight
    &&& node_cloned(from, e.node)
}

/// The adjacency table `adj` holds an edge from `a` to `b`.
pub open spec fn arc<T>(adj: Map<u32, Seq<Edge<T>>>, a: u32, b: u32) -> bool {
    adj.contains_key(a) && has_target(adj[a], b)
}

/// The edge from `a` to `b` in the adjacency table `adj`, where there is one.
pub open spec fn arc_edge<T>(adj: Map<u32, Seq<Edge<T>>>, a: u32, b: u32) -> Edge<T> {
    edge_to(adj[a], b)
}

/// No adjacency of the table holds two edges to one target.
pub open spec fn table_distinct<T>(adj: Map<u32, Seq<Edge<T>>>) -> bool {
    forall|k: u32| #[trigger] adj.contains_key(k) ==> distinct_targets(adj[k])
}

/// Every edge of the table has a mirror of the same weight.
pub open spec fn table_mirrored<T>(adj: Map<u32, Seq<Edge<T>>>) -> bool {
    forall|a: u32, b: u32| #[trigger]
        arc(adj, a, b) ==> arc(adj, b, a) && arc_edge(adj, b, a).weight == arc_edge(adj, a, b).weight
}

/// The edges of `with_edge(adj, u, e)`: those of `adj`, and `e` from `u`, which stands in the
/// place of the old edge from `u` to the same target.
pub proof fn lemma_with_edge<T>(adj: Map<u32, Seq<Edge<T>>>, u: u32, e: Edge<T>)
    requires
        table_distinct(adj),
        adj.contains_key(u),
    ensures
        table_distinct(with_edge(adj, u, e)),
        with_edge(adj, u, e).dom() == adj.dom(),
        forall|a: u32, b: u32| #[trigger]
            arc(with_edge(adj, u, e), a, b) <==> arc(adj, a, b) || (a == u && b == e.target()),
        arc_edge(with_edge(adj, u, e), u, e.target()) == e,
        forall|a: u32, b: u32|
            arc(adj, a, b) && !(a == u && b == e.target()) ==> #[trigger] arc_edge(with_edge(adj, u, e), a, b)
                == arc_edge(adj, a, b),
{
    let r = with_edge(adj, u, e);
    let old_row = adj[u];
    let new_row = upsert(old_row, e);
    assert(r[u] == new_row);
    assert(r.dom() =~= adj.dom());
    assert(forall|k: u32| k != u && adj.contains_key(k) ==> #[trigger] r[k] == adj[k]);
    assert(distinct_targets(old_row));
    assert(distinct_targets(new_row)) by {
        lemma_upsert(old_row, e);
    }
    assert forall|b: u32| has_target(new_row, b) <==> has_target(old_row, b) || b == e.target() by {
        lemma_upsert(old_row, e);
    }
    assert(edge_to(new_row, e.target()) == e) by {
        lemma_upsert(old_row, e);
    }
    assert forall|b: u32| has_target(old_row, b) && b != e.target() implies edge_to(new_row, b) == edge_to(
        old_row,
        b,
    ) by {
        lemma_upsert(old_row, e);
    }
    assert forall|k: u32| #[trigger] r.contains_key(k) implies distinct_targets(r[k]) by {
        if k != u {
            assert(adj.contains_key(k));
        }
    }
    assert forall|a: u32, b: u32| #[trigger] arc(r, a, b) <==> arc(adj, a, b) || (a == u && b == e.target()) by {
        if a == u {
            assert(has_target(new_row, b) <==> has_target(old_row, b) || b == e.target());
        } else if adj.contains_key(a) {
            assert(r[a] == adj[a]);
        }
    }
    assert forall|a: u32, b: u32| arc(adj, a, b) && !(a == u && b == e.target()) implies #[trigger] arc_edge(
        r,
        a,
        b,
    ) == arc_edge(adj, a, b) by {
        if a == u {
            assert(edge_to(new_row, b) == edge_to(old_row, b));
        } else {
            assert(r[a] == adj[a]);
        }
    }
}

/// The edges of `without_edge(adj, u, v)`: those of `adj` but the one from `u` to `v`.
pub proof fn lemma_without_edge<T>(adj: Map<u32, Seq<Edge<T>>>, u: u32, v: u32)
    requires
        table_distinct(adj),
        adj.contains_key(u),
    ensures
        table_distinct(without_edge(adj, u, v)),
        without_edge(adj, u, v).dom() == adj.dom(),
        forall|a: u32, b: u32| #[trigger]
            arc(without_edge(adj, u, v), a, b) <==> arc(adj, a, b) && !(a == u && b == v),
        forall|a: u32, b: u32|
            arc(adj, a, b) && !(a == u && b == v) ==> #[trigger] arc_edge(without_edge(adj, u, v), a, b)
                == arc_edge(adj, a, b),
{
    let r = without_edge(adj, u, v);
    let old_row = adj[u];
    let new_row = without(old_row, v);
    assert(r[u] == new_row);
    assert(r.dom() =~= adj.dom());
    assert(forall|k: u32| k != u && adj.contains_key(k) ==> #[trigger] r[k] == adj[k]);
    assert(distinct_targets(old_row));
    assert(distinct_targets(new_row)) by {
        lemma_without(old_row, v);
    }
    assert(!has_target(new_row, v)) by {
        lemma_without(old_row, v);
    }
    assert forall|b: u32| b != v implies (has_target(new_row, b) <==> has_target(old_row, b)) by {
        lemma_without(old_row, v);
    }
    assert forall|b: u32| has_target(old_row, b) && b != v implies edge_to(new_row, b) == edge_to(old_row, b) by {
        lemma_without(old_row, v);
    }
    assert forall|k: u32| #[trigger] r.contains_key(k) implies distinct_targets(r[k]) by {
        if k != u {
            assert(adj.contains_key(k));
        }
    }
    assert forall|a: u32, b: u32| #[trigger] arc(r, a, b) <==> arc(adj, a, b) && !(a == u && b == v) by {
        if a == u {
            if b != v {
                assert(has_target(new_row, b) <==> has_target(old_row, b));
            }
        } else if adj.contains_key(a) {
            assert(r[a] == adj[a]);
        }
    }
    assert forall|a: u32, b: u32| arc(adj, a, b) && !(a == u && b == v) implies #[trigger] arc_edge(r, a, b)
        == arc_edge(adj, a, b) by {
        if a == u {
            assert(edge_to(new_row, b) == edge_to(old_row, b));
        } else {
            assert(r[a] == adj[a]);
        }
    }
}

/// The edges of `without_node(adj, u)`: those of `adj` that neither leave `u` nor lead to it.
pub proof fn lemma_without_node<T>(adj: Map<u32, Seq<Edge<T>>>, u: u32)
    requires
        table_distinct(adj),
    ensures
        table_distinct(without_node(adj, u)),
        without_node(adj, u).dom() == adj.dom().remove(u),
        forall|a: u32, b: u32| #[trigger]
            arc(without_node(adj, u), a, b) <==> arc(adj, a, b) && a != u && b != u,
        forall|a: u32, b: u32|
            arc(adj, a, b) && a != u && b != u ==> #[trigger] arc_edge(without_node(adj, u), a, b) == arc_edge(
                adj,
                a,
                b,
            ),
{
    let r = without_node(adj, u);
    assert(r.dom() =~= adj.dom().remove(u));
    assert forall|k: u32| #[trigger] r.contains_key(k) implies distinct_targets(r[k]) by {
        lemma_without(adj[k], u);
    }
    assert forall|a: u32, b: u32| #[trigger] arc(r, a, b) <==> arc(adj, a, b) && a != u && b != u by {
        if adj.contains_key(a) {
            lemma_without(adj[a], u);
        }
    }
    assert forall|a: u32, b: u32| arc(adj, a, b) && a != u && b != u implies #[trigger] arc_edge(r, a, b)
        == arc_edge(adj, a, b) by {
        lemma_without(adj[a], u);
    }
}

/// Adding an edge and its mirror keeps a mirrored table mirrored.
pub proof fn lemma_add_keeps_mirrored<T>(adj: Map<u32, Seq<Edge<T>>>, u: u32, e: Edge<T>, m: Edge<T>)
    requires
        table_distinct(adj),
        table_mirrored(adj),
        adj.contains_key(u),
        adj.contains_key(e.target()),
        m.target() == u,
        m.weight == e.weight,
    ensures
        table_mirrored(with_edge(with_edge(adj, u, e), e.target(), m)),
{
    let v = e.target();
    let a1 = with_edge(adj, u, e);
    let a2 = with_edge(a1, v, m);
    lemma_with_edge(adj, u, e);
    lemma_with_edge(a1, v, m);
    assert forall|a: u32, b: u32| #[trigger] arc(a2, a, b) implies arc(a2, b, a) && arc_edge(a2, b, a).weight
        == arc_edge(a2, a, b).weight by {
        assert(arc(a1, a, b) || (a == v && b == u));
        assert(arc(adj, a, b) || (a == u && b == v) || (a == v && b == u));
        if (a == u && b == v) || (a == v && b == u) {
            assert(arc(a2, v, u));
            assert(arc(a1, u, v));
            assert(arc(a2, u, v));
            assert(arc_edge(a2, v, u) == m);
            if u != v {
                assert(arc_edge(a2, u, v) == arc_edge(a1, u, v));
            }
        } else {
            assert(arc(adj, b, a));
            assert(arc(a1, b, a));
            assert(arc(a2, b, a));
            assert(arc_edge(a1, a, b) == arc_edge(adj, a, b));
            assert(arc_edge(a2, a, b) == arc_edge(a1, a, b));
            assert(arc_edge(a1, b, a) == arc_edge(adj, b, a));
            assert(arc_edge(a2, b, a) == arc_edge(a1, b, a));
        }
    }
}

/// Taking out an edge and its mirror keeps a mirrored table mirrored.
pub proof fn lemma_delete_keeps_mirrored<T>(adj: Map<u32, Seq<Edge<T>>>, u: u32, v: u32)
    requires
        table_distinct(adj),
        table_mirrored(adj),
        arc(adj, u, v),
    ensures
        table_mirrored(without_edge(without_edge(adj, u, v), v, u)),
        u == v ==> table_mirrored(without_edge(adj, u, v)),
{
    let a1 = without_edge(adj, u, v);
    let a2 = without_edge(a1, v, u);
    assert(arc(adj, v, u));
    lemma_without_edge(adj, u, v);
    lemma_without_edge(a1, v, u);
    assert forall|a: u32, b: u32| #[trigger] arc(a2, a, b) implies arc(a2, b, a) && arc_edge(a2, b, a).weight
        == arc_edge(a2, a, b).weight by {
        assert(arc(a1, a, b));
        assert(arc(adj, a, b));
        assert(arc(adj, b, a));
        assert(arc(a1, b, a));
        assert(arc(a2, b, a));
        assert(arc_edge(a1, a, b) == arc_edge(adj, a, b));
        assert(arc_edge(a2, a, b) == arc_edge(a1, a, b));
        assert(arc_edge(a1, b, a) == arc_edge(adj, b, a));
        assert(arc_edge(a2, b, a) == arc_edge(a1, b, a));
    }
    if u == v {
        assert forall|a: u32, b: u32| #[trigger] arc(a1, a, b) implies arc(a1, b, a) && arc_edge(a1, b, a).weight
            == arc_edge(a1, a, b).weight by {
            assert(arc(adj, a, b));
            assert(arc(adj, b, a));
            assert(arc(a1, b, a));
            assert(arc_edge(a1, a, b) == arc_edge(adj, a, b));
            assert(arc_edge(a1, b, a) == arc_edge(adj, b, a));
        }
    }
}

/// Taking out a node, with every edge that leads to it, keeps a mirrored table mirrored.
pub proof fn lemma_remove_keeps_mirrored<T>(adj: Map<u32, Seq<Edge<T>>>, u: u32)
    requires
        table_distinct(adj),
        table_mirrored(adj),
    ensures
        table_mirrored(without_node(adj, u)),
{
    let r = without_node(adj, u);
    lemma_without_node(adj, u);
    assert forall|a: u32, b: u32| #[trigger] arc(r, a, b) implies arc(r, b, a) && arc_edge(r, b, a).weight
        == arc_edge(r, a, b).weight by {
        assert(arc(adj, a, b));
        assert(arc(adj, b, a));
        assert(arc(r, b, a));
        assert(arc_edge(r, a, b) == arc_edge(adj, a, b));
        assert(arc_edge(r, b, a) == arc_edge(adj, b, a));
    }
}

/// The edge from `a` to `b` comes before the place `(i, j)` in a walk through the table that
/// takes the nodes in the order of `ids` and the edges of each in the order of its adjacency:
/// `a` is one of the first `i` nodes, or it is the next and the edge is one of its first `j`.
pub open spec fn edge_before<T>(adj: Map<u32, Seq<Edge<T>>>, ids: Seq<u32>, i: int, j: int, a: u32, b: u32) -> bool {
    &&& arc(adj, a, b)
    &&& (exists|k: int| 0 <= k < i && k < ids.len() && #[trigger] ids[k] == a) || (0 <= i < ids.len() && a
        == ids[i] && target_index(adj[a], b) < j)
}

/// One edge further in the walk, that edge has been passed as well.
pub proof fn lemma_edge_before_step<T>(adj: Map<u32, Seq<Edge<T>>>, ids: Seq<u32>, i: int, j: int)
    requires
        table_distinct(adj),
        ids.no_duplicates(),
        0 <= i < ids.len(),
        adj.contains_key(ids[i]),
        0 <= j < adj[ids[i]].len(),
    ensures
        forall|a: u32, b: u32| #[trigger]
            edge_before(adj, ids, i, j + 1, a, b) <==> edge_before(adj, ids, i, j, a, b) || (a == ids[i] && b
                == adj[ids[i]][j].target()),
        !edge_before(adj, ids, i, j, ids[i], adj[ids[i]][j].target()),
{
    let id = ids[i];
    let edges = adj[id];
    let v = edges[j].target();
    lemma_target_index_unique(edges, j);
    assert forall|a: u32, b: u32| #[trigger]
        edge_before(adj, ids, i, j + 1, a, b) <==> edge_before(adj, ids, i, j, a, b) || (a == id && b == v) by {
        if a == id && arc(adj, a, b) {
            let k = target_index(edges, b);
            assert(0 <= k < edges.len() && edges[k].target() == b);
        }
    }
    if edge_before(adj, ids, i, j, id, v) {
        let k = choose|k: int| 0 <= k < i && k < ids.len() && #[trigger] ids[k] == id;
        assert(ids[k] == ids[i]);
    }
}

/// At the end of an adjacency the walk stands at the start of the next.
pub proof fn lemma_edge_before_next<T>(adj: Map<u32, Seq<Edge<T>>>, ids: Seq<u32>, i: int)
    requires
        0 <= i < ids.len(),
        adj.contains_key(ids[i]),
    ensures
        forall|a: u32, b: u32| #[trigger]
            edge_before(adj, ids, i + 1, 0, a, b) <==> edge_before(adj, ids, i, adj[ids[i]].len() as int, a, b),
{
    let edges = adj[ids[i]];
    assert forall|a: u32, b: u32| #[trigger]
        edge_before(adj, ids, i + 1, 0, a, b) <==> edge_before(adj, ids, i, edges.len() as int, a, b) by {
        if edge_before(adj, ids, i + 1, 0, a, b) {
            let k = choose|k: int| 0 <= k < i + 1 && k < ids.len() && #[trigger] ids[k] == a;
            if k == i {
                let m = target_index(edges, b);
                assert(0 <= m < edges.len());
            }
        }
        if edge_before(adj, ids, i, edges.len() as int, a, b) {
            if exists|k: int| 0 <= k < i && k < ids.len() && #[trigger] ids[k] == a {
                let k = choose|k: int| 0 <= k < i && k < ids.len() && #[trigger] ids[k] == a;
                assert(0 <= k < i + 1 && ids[k] == a);
            } else {
                assert(0 <= i < i + 1 && ids[i] == a);
            }
        }
    }
}

/// At the end of the walk every edge has been passed, and at its start none.
pub proof fn lemma_edge_before_all<T>(adj: Map<u32, Seq<Edge<T>>>, ids: Seq<u32>)
    requires
        ids.to_set() == adj.dom(),
    ensures
        forall|a: u32, b: u32| #[trigger] edge_before(adj, ids, ids.len() as int, 0, a, b) <==> arc(adj, a, b),
        forall|a: u32, b: u32| !#[trigger] edge_before(adj, ids, 0, 0, a, b),
{
    assert forall|a: u32, b: u32| #[trigger] edge_before(adj, ids, ids.len() as int, 0, a, b) <==> arc(
        adj,
        a,
        b,
    ) by {
        if arc(adj, a, b) {
            assert(ids.to_set().contains(a));
            let k = choose|k: int| 0 <= k < ids.len() && ids[k] == a;
            assert(ids[k] == a);
        }
    }
}

/// A graph with payloads of type `T`.
#[derive(Debug)]
pub struct Graph<T> {
    nodes: HashMap<u32, Node<T>>,
    adjacency: HashMap<u32, Adjacency<T>>,
    is_directed: bool,
}

impl<T> Graph<T> {
    /// The node table: id to node.
    pub closed spec fn nodes(&self) -> Map<u32, Node<T>> {
        self.nodes@
    }

    /// The adjacency table: id to the out-edges of that node.
    pub closed spec fn adj(&self) -> Map<u32, Seq<Edge<T>>> {
        Map::new(|k: u32| self.adjacency@.contains_key(k), |k: u32| self.adjacency@[k]@)
    }

    /// Whether edges are one-way.
    pub closed spec fn directed(&self) -> bool {
        self.is_directed
    }

    /// The graph is well formed: the node table and the adjacency table have the same keys,
    /// every node stands under its own id, and no adjacency holds two edges to one target.
    pub open spec fn wf(&self) -> bool {
        &&& self.nodes().dom() == self.adj().dom()
        &&& self.nodes().dom().finite()
        &&& forall|k: u32| #[trigger] self.nodes().contains_key(k) ==> self.nodes()[k].number == k
        &&& table_distinct(self.adj())
    }

    /// There is an edge from `u` to `v`.
    pub open spec fn has_edge(&self, u: u32, v: u32) -> bool {
        arc(self.adj(), u, v)
    }

    /// The weight of the edge from `u` to `v`, where there is one.
    pub open spec fn weight(&self, u: u32, v: u32) -> u32 {
        arc_edge(self.adj(), u, v).weight
    }

    /// The edges as a relation between ids.
    pub open spec fn arcs(&self) -> Relation {
        |u: u32, v: u32| self.has_edge(u, v)
    }

    /// Every edge leads to a node of the graph.
    pub open spec fn closed(&self) -> bool {
        forall|u: u32, v: u32| #[trigger] self.has_edge(u, v) ==> self.nodes().contains_key(v)
    }

    /// Every edge has its mirror: an edge back, of the same weight.
    pub open spec fn mirrored(&self) -> bool {
        table_mirrored(self.adj())
    }

    proof fn lemma_adj_insert(self, old_adj: Map<u32, Seq<Edge<T>>>, old_table: Map<u32, Adjacency<T>>, k: u32, a: Adjacency<T>)
        requires
            old_adj == Map::new(|j: u32| old_table.contains_key(j), |j: u32| old_table[j]@),
            self.adjacency@ == old_table.insert(k, a),
        ensures
            self.adj() == old_adj.insert(k, a@),
    {
        assert(self.adj() =~= old_adj.insert(k, a@));
    }

    /// An empty graph.
    pub fn empty(is_directed: bool) -> (g: Self)
        ensures
            g.wf(),
            g.nodes() == Map::<u32, Node<T>>::empty(),
            g.adj() == Map::<u32, Seq<Edge<T>>>::empty(),
            g.directed() == is_directed,
            g.mirrored(),
    {
        let g = Self { nodes: HashMap::new(), adjacency: HashMap::new(), is_directed };
        proof {
            assert(g.adj() =~= Map::<u32, Seq<Edge<T>>>::empty());
            assert(g.nodes().dom() =~= g.adj().dom());
        }
        g
    }

    /// Whether edges are one-way.
    #[verifier::when_used_as_spec(directed)]
    pub fn get_is_directed(&self) -> (b: bool)
        ensures
            b == self.directed(),
    {
        self.is_directed
    }

    /// Makes the edges one-way. No edge is added or removed.
    pub fn to_directed(&mut self)
        ensures
            final(self).directed(),
            final(self).nodes() == old(self).nodes(),
            final(self).adj() == old(self).adj(),
    {
        self.is_directed = true
    }

    /// Makes the edges two-way. No edge is added or removed, so an edge without a mirror stays
    /// without one.
    pub fn to_undirected(&mut self)
        ensures
            !final(self).directed(),
            final(self).nodes() == old(self).nodes(),
            final(self).adj() == old(self).adj(),
    {
        self.is_directed = false
    }

    /// The number of nodes.
    pub fn len(&self) -> (n: usize)
        requires
            self.wf(),
        ensures
            n == self.nodes().dom().len(),
    {
        broadcast use group_hash_axioms;

        self.nodes.len()
    }

    /// The node with id `index`.
    pub fn get_node(&self, index: &u32) -> (r: Option<&Node<T>>)
        ensures
            r is Some <==> self.nodes().contains_key(*index),
            r matches Some(n) ==> *n == self.nodes()[*index],
    {
        broadcast use group_hash_axioms;

        self.nodes.get(index)
    }

    /// The out-edges of the node with id `index`.
    pub fn get_adjacency(&self, index: &u32) -> (r: Option<&Adjacency<T>>)
        ensures
            r is Some <==> self.adj().contains_key(*index),
            r matches Some(a) ==> a@ == self.adj()[*index],
    {
        broadcast use group_hash_axioms;

        self.adjacency.get(index)
    }

    /// The ids of the nodes, each once, in no particular order.
    pub fn node_ids(&self) -> (ids: Vec<u32>)
        requires
            self.wf(),
        ensures
            ids@.no_duplicates(),
            ids@.to_set() == self.nodes().dom(),
            ids@.len() == self.nodes().dom().len(),
    {
        broadcast use group_hash_axioms;

        let mut out: Vec<u32> = Vec::new();
        let ghost full: Seq<u32> = self.adjacency.keys().remaining().unref();
        for k in it: self.adjacency.keys()
            invariant
                it.seq().unref() == full,
                out@ == full.take(it.index() as int),
        {
            out.push(*k);
        }
        proof {
            assert(out@ =~= full);
            assert(self.adjacency@.dom() =~= self.adj().dom());
        }
        out
    }

    /// Adds `node`, with no edges. `NodeAlreadyExist` where a node has the same id.
    pub fn add_node(&mut self, node: Node<T>) -> (r: Result<(), GraphError>)
        requires
            old(self).wf(),
        ensures
            final(self).wf(),
            final(self).directed() == old(self).directed(),
            r is Ok <==> !old(self).nodes().contains_key(node.number),
            r is Ok ==> final(self).nodes() == old(self).nodes().insert(node.number, node)
                && final(self).adj() == old(self).adj().insert(node.number, Seq::empty()),
            old(self).mirrored() ==> final(self).mirrored(),
            r matches Err(e) ==> e.spec_kind() == GraphKindError::NodeAlreadyExist && *final(self) == *old(
                self,
            ),
    {
        broadcast use group_hash_axioms;

        let id = node.number;
        proof {
            assert(self.nodes().dom().contains(id) == self.adj().dom().contains(id));
        }
        if !self.adjacency.contains_key(&id) {
            let ghost old_adj = self.adj();
            let ghost old_table = self.adjacency@;
            let a = Adjacency::empty();
            self.adjacency.insert(id, a);
            self.nodes.insert(id, node);
            proof {
                self.lemma_adj_insert(old_adj, old_table, id, a);
                assert(self.nodes().dom() =~= self.adj().dom());
                if table_mirrored(old_adj) {
                    let new_adj = self.adj();
                    assert forall|x: u32, y: u32| #[trigger] arc(new_adj, x, y) implies arc(new_adj, y, x)
                        && arc_edge(new_adj, y, x).weight == arc_edge(new_adj, x, y).weight by {
                        assert(x != id);
                        assert(arc(old_adj, x, y));
                        assert(arc(old_adj, y, x));
                    }
                }
            }
            Ok(())
        } else {
            Err(GraphError::new(GraphKindError::NodeAlreadyExist, ""))
        }
    }

    /// Takes in `node` with `adjacency` as its out-edges.
    pub(crate) fn insert_entry(&mut self, node: Node<T>, adjacency: Adjacency<T>)
        requires
            old(self).wf(),
            !old(self).nodes().contains_key(node.number),
            adjacency.wf(),
        ensures
            final(self).wf(),
            final(self).directed() == old(self).directed(),
            final(self).nodes() == old(self).nodes().insert(node.number, node),
            final(self).adj() == old(self).adj().insert(node.number, adjacency@),
    {
        broadcast use group_hash_axioms;

        let id = node.number;
        let ghost old_adj = self.adj();
        let ghost old_table = self.adjacency@;
        proof {
            assert(self.nodes().dom().contains(id) == self.adj().dom().contains(id));
        }
        self.adjacency.insert(id, adjacency);
        self.nodes.insert(id, node);
        proof {
            self.lemma_adj_insert(old_adj, old_table, id, adjacency);
            assert(self.nodes().dom() =~= self.adj().dom());
        }
    }

    /// Puts `e` into the adjacency of `u`, which the graph holds.
    pub(crate) fn put_edge(&mut self, u: u32, e: Edge<T>)
        requires
            old(self).wf(),
            old(self).adj().contains_key(u),
        ensures
            final(self).wf(),
            final(self).directed() == old(self).directed(),
            final(self).nodes() == old(self).nodes(),
            final(self).adj() == with_edge(old(self).adj(), u, e),
    {
        broadcast use group_hash_axioms;

        let ghost old_adj = self.adj();
        let ghost old_table = self.adjacency@;
        let o = self.adjacency.remove(&u);
        let mut a = o.unwrap();
        assert(a@ == old_adj[u]);
        a.push(e);
        self.adjacency.insert(u, a);
        proof {
            assert(self.adjacency@ =~= old_table.insert(u, a));
            self.lemma_adj_insert(old_adj, old_table, u, a);
            lemma_upsert(old_adj[u], e);
            assert(self.nodes().dom() =~= self.adj().dom());
        }
    }

    /// Takes the edge to `v` out of the adjacency of `u`, which holds one.
    fn pull_edge(&mut self, u: u32, v: u32) -> (e: Edge<T>)
        requires
            old(self).wf(),
            old(self).has_edge(u, v),
        ensures
            final(self).wf(),
            final(self).directed() == old(self).directed(),
            final(self).nodes() == old(self).nodes(),
            final(self).adj() == without_edge(old(self).adj(), u, v),
            e == edge_to(old(self).adj()[u], v),
    {
        broadcast use group_hash_axioms;

        let ghost old_adj = self.adj();
        let ghost old_table = self.adjacency@;
        let o = self.adjacency.remove(&u);
        let mut a = o.unwrap();
        assert(a@ == old_adj[u]);
        let r = a.take(v);
        self.adjacency.insert(u, a);
        proof {
            assert(self.adjacency@ =~= old_table.insert(u, a));
            self.lemma_adj_insert(old_adj, old_table, u, a);
            lemma_without(old_adj[u], v);
            assert(self.nodes().dom() =~= self.adj().dom());
        }
        r.unwrap()
    }

    /// The id of some node, or `None` where the graph has none.
    pub fn get_some_node_index(&self) -> (r: Option<u32>)
        requires
            self.wf(),
        ensures
            r is None <==> self.nodes().dom().len() == 0,
            r matches Some(id) ==> self.nodes().contains_key(id),
    {
        let ids = self.node_ids();
        if ids.len() > 0 {
            proof {
                assert(ids@.to_set().contains(ids@[0]));
            }
            Some(ids[0])
        } else {
            None
        }
    }

    /// Whether there is an edge from `u` to `v`.
    pub fn contains_edge(&self, u: u32, v: u32) -> (b: bool)
        requires
            self.wf(),
        ensures
            b == self.has_edge(u, v),
    {
        match self.get_adjacency(&u) {
            Some(a) => a.position(v).is_some(),
            None => false,
        }
    }

    /// Removes the edge from `node` to `edge_index` and returns it. In an undirected graph the
    /// mirror is removed too, and returned second; a loop is its own mirror and comes back once.
    ///
    /// `NodeNotFound` where the graph has no such edge, or is undirected and lacks the mirror.
    pub fn delete_edge(&mut self, node: &Node<T>, edge_index: &u32) -> (r: Result<
        (Option<Edge<T>>, Option<Edge<T>>),
        GraphError,
    >)
        requires
            old(self).wf(),
        ensures
            final(self).wf(),
            final(self).directed() == old(self).directed(),
            final(self).nodes() == old(self).nodes(),
            r is Ok <==> old(self).has_edge(node.number, *edge_index) && (old(self).directed()
                || node.number == *edge_index || old(self).has_edge(*edge_index, node.number)),
            r matches Ok(p) ==> p.0 == Some(arc_edge(old(self).adj(), node.number, *edge_index)) && if old(
                self,
            ).directed() || node.number == *edge_index {
                &&& p.1 is None
                &&& final(self).adj() == without_edge(old(self).adj(), node.number, *edge_index)
            } else {
                &&& p.1 == Some(arc_edge(old(self).adj(), *edge_index, node.number))
                &&& final(self).adj() == without_edge(
                    without_edge(old(self).adj(), node.number, *edge_index),
                    *edge_index,
                    node.number,
                )
            },
            r is Ok ==> !final(self).has_edge(node.number, *edge_index) && (!old(self).directed()
                ==> !final(self).has_edge(*edge_index, node.number)),
            r is Ok && !old(self).directed() && old(self).mirrored() ==> final(self).mirrored(),
            r matches Err(e) ==> e.spec_kind() == GraphKindError::NodeNotFound && *final(self) == *old(
                self,
            ),
    {
        let u = node.number;
        let v = *edge_index;
        if !self.contains_edge(u, v) {
            return Err(GraphError::new(GraphKindError::NodeNotFound, ""));
        }
        if self.is_directed || u == v {
            let ghost old_adj = self.adj();
            let first = self.pull_edge(u, v);
            proof {
                lemma_without_edge(old_adj, u, v);
                if !self.is_directed && table_mirrored(old_adj) {
                    lemma_delete_keeps_mirrored(old_adj, u, v);
                }
            }
            return Ok((Some(first), None));
        }
        if !self.contains_edge(v, u) {
            return Err(GraphError::new(GraphKindError::NodeNotFound, ""));
        }
        let ghost old_adj = self.adj();
        let first = self.pull_edge(u, v);
        proof {
            lemma_without_edge(old_adj, u, v);
            assert(arc(self.adj(), v, u));
            assert(arc_edge(self.adj(), v, u) == arc_edge(old_adj, v, u));
        }
        let second = self.pull_edge(v, u);
        proof {
            lemma_without_edge(without_edge(old_adj, u, v), v, u);
            if table_mirrored(old_adj) {
                lemma_delete_keeps_mirrored(old_adj, u, v);
            }
        }
        Ok((Some(first), Some(second)))
    }

    /// Removes `node` and its adjacency, and every edge elsewhere that leads to it. Returns the
    /// adjacency that was removed, without its loop.
    ///
    /// `NodeNotFound` where the graph has no such node.
    pub fn delete_node(&mut self, node: &Node<T>) -> (r: Result<Adjacency<T>, GraphError>)
        requires
            old(self).wf(),
        ensures
            final(self).wf(),
            final(self).directed() == old(self).directed(),
            r is Ok <==> old(self).nodes().contains_key(node.number),
            r matches Ok(a) ==> {
                &&& a@ == without(old(self).adj()[node.number], node.number)
                &&& a.wf()
                &&& final(self).nodes() == old(self).nodes().remove(node.number)
                &&& final(self).adj() == without_node(old(self).adj(), node.number)
            },
            r is Ok ==> forall|a: u32|
                !(#[trigger] final(self).has_edge(a, node.number)) && !final(self).has_edge(node.number, a),
            r is Ok && old(self).mirrored() ==> final(self).mirrored(),
            r matches Err(e) ==> e.spec_kind() == GraphKindError::NodeNotFound && *final(self) == *old(
                self,
            ),
    {
        broadcast use group_hash_axioms;

        let u = node.number;
        proof {
            assert(self.nodes().dom().contains(u) == self.adj().dom().contains(u));
        }
        if !self.adjacency.contains_key(&u) {
            return Err(GraphError::new(GraphKindError::NodeNotFound, ""));
        }
        let ghost old_adj = self.adj();
        let ghost old_nodes = self.nodes();
        let ids = self.node_ids();
        let mut i: usize = 0;
        while i < ids.len()
            invariant
                i <= ids@.len(),
                ids@.no_duplicates(),
                ids@.to_set() == old_adj.dom(),
                self.nodes() == old_nodes,
                self.directed() == old(self).directed(),
                self.adj().dom() == old_adj.dom(),
                table_distinct(old_adj),
                old_nodes.dom() == old_adj.dom(),
                old_nodes.dom().finite(),
                forall|k: u32| #[trigger] old_nodes.contains_key(k) ==> old_nodes[k].number == k,
                forall|j: int| 0 <= j < i ==> self.adj()[#[trigger] ids@[j]] == without(old_adj[ids@[j]], u),
                forall|j: int| i <= j < ids@.len() ==> self.adj()[#[trigger] ids@[j]] == old_adj[ids@[j]],
            decreases ids@.len() - i,
        {
            let k = ids[i];
            let ghost before = self.adj();
            let ghost table = self.adjacency@;
            assert(ids@.to_set().contains(ids@[i as int]));
            assert(before.contains_key(k));
            let o = self.adjacency.remove(&k);
            let mut a = o.unwrap();
            assert(a@ == old_adj[k]);
            a.take(u);
            self.adjacency.insert(k, a);
            proof {
                assert(self.adjacency@ =~= table.insert(k, a));
                self.lemma_adj_insert(before, table, k, a);
                assert(self.adj().dom() =~= old_adj.dom());
                assert forall|j: int| 0 <= j < i + 1 implies self.adj()[#[trigger] ids@[j]] == without(
                    old_adj[ids@[j]],
                    u,
                ) by {
                    if j < i {
                        assert(ids@[j] != ids@[i as int]);
                    }
                }
                assert forall|j: int| i + 1 <= j < ids@.len() implies self.adj()[#[trigger] ids@[j]]
                    == old_adj[ids@[j]] by {
                    assert(ids@[j] != ids@[i as int]);
                }
            }
            i += 1;
        }
        let ghost scrubbed = self.adj();
        let ghost table = self.adjacency@;
        self.nodes.remove(&u);
        let o = self.adjacency.remove(&u);
        proof {
            lemma_without_node(old_adj, u);
            assert forall|k: u32| scrubbed.contains_key(k) implies #[trigger] scrubbed[k] == without(
                old_adj[k],
                u,
            ) by {
                assert(ids@.to_set().contains(k));
                let j = choose|j: int| 0 <= j < ids@.len() && ids@[j] == k;
                assert(scrubbed[ids@[j]] == without(old_adj[ids@[j]], u));
            }
            assert(self.adj() =~= without_node(old_adj, u));
            assert(self.nodes().dom() =~= self.adj().dom());
            lemma_without(old_adj[u], u);
            if table_mirrored(old_adj) {
                lemma_remove_keeps_mirrored(old_adj, u);
            }
            assert forall|a: u32| !(#[trigger] arc(self.adj(), a, u)) && !arc(self.adj(), u, a) by {}
        }
        Ok(o.unwrap())
    }
}

impl<T: Clone> Graph<T> {
    /// A graph grown from one seed node, or an empty graph where `node` is `None`.
    ///
    /// The seed comes in with `edge_adjacency` as its out-edges. In an undirected graph every
    /// other target of those edges comes in as a node too, with the payload that the edge
    /// carries and with the mirror as its only edge.
    pub fn new(node: Option<Node<T>>, edge_adjacency: Adjacency<T>, is_directed: bool) -> (g: Self)
        requires
            edge_adjacency.wf(),
        ensures
            g.wf(),
            g.directed() == is_directed,
            g.nodes().dom() == g.adj().dom(),
            node is None ==> g.nodes() == Map::<u32, Node<T>>::empty(),
            node matches Some(n) ==> {
                &&& g.nodes().contains_key(n.number)
                &&& g.nodes()[n.number] == n
                &&& g.adj()[n.number] == edge_adjacency@
                &&& forall|t: u32| #[trigger]
                    g.nodes().contains_key(t) <==> t == n.number || (!is_directed && has_target(
                        edge_adjacency@,
                        t,
                    ))
                &&& forall|t: u32|
                    t != n.number && #[trigger] g.nodes().contains_key(t) ==> {
                        &&& node_cloned(edge_to(edge_adjacency@, t).node, g.nodes()[t])
                        &&& g.adj()[t].len() == 1
                        &&& mirrors(n, edge_to(edge_adjacency@, t).weight, g.adj()[t][0])
                    }
            },
            !is_directed ==> g.mirrored(),
    {
        broadcast use group_hash_axioms;

        let mut g = Graph::empty(is_directed);
        match node {
            None => g,
            Some(n) => {
                let id = n.number;
                let ghost src = edge_adjacency@;
                if !is_directed {
                    let mut i: usize = 0;
                    while i < edge_adjacency.len()
                        invariant
                            i <= src.len(),
                            src == edge_adjacency@,
                            distinct_targets(src),
                            id == n.number,
                            g.is_directed == is_directed,
                            g.nodes@.dom() == g.adjacency@.dom(),
                            g.nodes@.dom().finite(),
                            forall|t: u32| #[trigger]
                                g.nodes@.contains_key(t) <==> t != id && exists|j: int|
                                    0 <= j < i && (#[trigger] src[j]).target() == t,
                            forall|t: u32| #[trigger]
                                g.nodes@.contains_key(t) ==> {
                                    &&& g.nodes@[t].number == t
                                    &&& node_cloned(edge_to(src, t).node, g.nodes@[t])
                                    &&& g.adjacency@[t]@.len() == 1
                                    &&& mirrors(n, edge_to(src, t).weight, g.adjacency@[t]@[0])
                                },
                        decreases src.len() - i,
                    {
                        let e = edge_adjacency.edge(i);
                        let t = e.node.number;
                        proof {
                            crate::adjacency::lemma_target_index_unique(src, i as int);
                        }
                        if t != id {
                            let m = Edge::new(&id, e.weight, &n.value);
                            let tn = e.node.clone();
                            let ghost before = g.nodes@;
                            g.nodes.insert(t, tn);
                            g.adjacency.insert(t, Adjacency::new(m));
                            proof {
                                assert(g.nodes@.dom() =~= g.adjacency@.dom());
                                assert forall|x: u32| #[trigger]
                                    g.nodes@.contains_key(x) <==> x != id && exists|j: int|
                                        0 <= j < i + 1 && (#[trigger] src[j]).target() == x by {
                                    if x == t {
                                        assert(src[i as int].target() == x);
                                    } else if g.nodes@.contains_key(x) {
                                        assert(before.contains_key(x));
                                        let j = choose|j: int| 0 <= j < i && (#[trigger] src[j]).target() == x;
                                        assert(0 <= j < i + 1 && src[j].target() == x);
                                    } else if x != id && (exists|j: int|
                                        0 <= j < i + 1 && (#[trigger] src[j]).target() == x) {
                                        let j = choose|j: int|
                                            0 <= j < i + 1 && (#[trigger] src[j]).target() == x;
                                        assert(j < i);
                                        assert(before.contains_key(x));
                                    }
                                }
                            }
                        } else {
                            proof {
                                assert forall|x: u32| #[trigger]
                                    g.nodes@.contains_key(x) <==> x != id && exists|j: int|
                                        0 <= j < i + 1 && (#[trigger] src[j]).target() == x by {
                                    if g.nodes@.contains_key(x) {
                                        let j = choose|j: int| 0 <= j < i && (#[trigger] src[j]).target() == x;
                                        assert(0 <= j < i + 1 && src[j].target() == x);
                                    } else if x != id && (exists|j: int|
                                        0 <= j < i + 1 && (#[trigger] src[j]).target() == x) {
                                        let j = choose|j: int|
                                            0 <= j < i + 1 && (#[trigger] src[j]).target() == x;
                                        assert(j < i);
                                    }
                                }
                            }
                        }
                        i += 1;
                    }
                }
                let ghost mid_nodes = g.nodes@;
                let ghost mid_table = g.adjacency@;
                g.adjacency.insert(id, edge_adjacency);
                g.nodes.insert(id, n);
                proof {
                    assert(!mid_nodes.contains_key(id));
                    assert(g.nodes().dom() =~= g.adj().dom());
                    let adj = g.adj();
                    assert(adj[id] == src);
                    assert forall|t: u32| #[trigger]
                        g.nodes().contains_key(t) <==> t == id || (!is_directed && has_target(src, t)) by {
                        if t != id && g.nodes().contains_key(t) {
                            assert(mid_nodes.contains_key(t));
                            let j = choose|j: int| 0 <= j < src.len() && (#[trigger] src[j]).target() == t;
                            assert(has_target(src, t));
                        }
                        if t != id && !is_directed && has_target(src, t) {
                            let j = crate::adjacency::target_index(src, t);
                            assert(0 <= j < src.len() && src[j].target() == t);
                            assert(mid_nodes.contains_key(t));
                        }
                    }
                    assert forall|k: u32| #[trigger] adj.contains_key(k) implies distinct_targets(adj[k]) by {
                        if k != id {
                            assert(mid_nodes.contains_key(k));
                            assert(adj[k] == mid_table[k]@);
                        }
                    }
                    assert forall|t: u32| t != id && #[trigger] g.nodes().contains_key(t) implies g.adj()[t].len()
                        == 1 && mirrors(n, edge_to(src, t).weight, g.adj()[t][0]) && node_cloned(
                        edge_to(src, t).node,
                        g.nodes()[t],
                    ) by {
                        assert(mid_nodes.contains_key(t));
                        assert(adj[t] == mid_table[t]@);
                    }
                    if !is_directed {
                        assert forall|a: u32, b: u32| #[trigger] arc(adj, a, b) implies arc(adj, b, a)
                            && arc_edge(adj, b, a).weight == arc_edge(adj, a, b).weight by {
                            if a == id && b != id {
                                assert(g.nodes().contains_key(b));
                                assert(mid_nodes.contains_key(b));
                                assert(adj[b] == mid_table[b]@);
                                assert(adj[b][0].target() == id);
                                crate::adjacency::lemma_target_index_unique(adj[b], 0);
                            } else if a != id {
                                assert(g.nodes().contains_key(a));
                                assert(mid_nodes.contains_key(a));
                                assert(adj[a] == mid_table[a]@);
                                let j = crate::adjacency::target_index(adj[a], b);
                                assert(j == 0);
                                assert(b == id);
                                assert(has_target(src, a));
                                crate::adjacency::lemma_target_index_unique(adj[a], 0);
                            }
                        }
                    }
                }
                g
            },
        }
    }

    /// Adds an edge from `node` to the target of `new_edge`, in the place of the edge between
    /// the two if there is one. In an undirected graph the mirror is added as well: the edge
    /// from the target back to `node`, with the same weight and `node`'s payload.
    ///
    /// `NodeNotFound` where the graph has no node `node.number`, or is undirected and has no
    /// node for the target.
    pub fn add_edge(&mut self, node: &Node<T>, new_edge: &Edge<T>) -> (r: Result<(), GraphError>)
        requires
            old(self).wf(),
        ensures
            final(self).wf(),
            final(self).directed() == old(self).directed(),
            final(self).nodes() == old(self).nodes(),
            r is Ok <==> old(self).adj().contains_key(node.number) && (old(self).directed() || old(
                self,
            ).adj().contains_key(new_edge.target())),
            r is Ok && old(self).directed() ==> exists|e: Edge<T>| #[trigger]
                edge_cloned(*new_edge, e) && final(self).adj() == with_edge(old(self).adj(), node.number, e),
            r is Ok && !old(self).directed() ==> exists|e: Edge<T>, m: Edge<T>|
                #![trigger edge_cloned(*new_edge, e), mirrors(*node, new_edge.weight, m)]
                edge_cloned(*new_edge, e) && mirrors(*node, new_edge.weight, m) && final(self).adj()
                    == with_edge(with_edge(old(self).adj(), node.number, e), new_edge.target(), m),
            r is Ok ==> final(self).has_edge(node.number, new_edge.target()) && final(self).weight(
                node.number,
                new_edge.target(),
            ) == new_edge.weight,
            r is Ok && !old(self).directed() ==> final(self).weight(new_edge.target(), node.number)
                == new_edge.weight,
            r is Ok ==> forall|a: u32, b: u32| #[trigger]
                final(self).has_edge(a, b) <==> old(self).has_edge(a, b) || (a == node.number && b
                    == new_edge.target()) || (!old(self).directed() && a == new_edge.target() && b == node.number),
            r is Ok ==> forall|a: u32, b: u32|
                old(self).has_edge(a, b) && !(a == node.number && b == new_edge.target()) && !(!old(
                    self,
                ).directed() && a == new_edge.target() && b == node.number) ==> #[trigger] final(self).weight(a, b)
                    == old(self).weight(a, b),
            !old(self).directed() && old(self).mirrored() ==> final(self).mirrored(),
            r matches Err(e) ==> e.spec_kind() == GraphKindError::NodeNotFound && *final(self) == *old(
                self,
            ),
    {
        broadcast use group_hash_axioms;

        let u = node.number;
        let v = new_edge.node.number;
        if !self.adjacency.contains_key(&u) {
            return Err(GraphError::new(GraphKindError::NodeNotFound, ""));
        }
        if !self.is_directed && !self.adjacency.contains_key(&v) {
            return Err(GraphError::new(GraphKindError::NodeNotFound, ""));
        }
        let ghost old_adj = self.adj();
        let e = new_edge.clone();
        self.put_edge(u, e);
        proof {
            lemma_with_edge(old_adj, u, e);
        }
        if !self.is_directed {
            let m = Edge::new(&u, new_edge.weight, &node.value);
            self.put_edge(v, m);
            proof {
                let mid = with_edge(old_adj, u, e);
                assert(edge_cloned(*new_edge, e) && mirrors(*node, new_edge.weight, m));
                lemma_with_edge(mid, v, m);
                assert(arc(mid, u, v));
                assert(arc(self.adj(), u, v));
                if u != v {
                    assert(arc_edge(self.adj(), u, v) == arc_edge(mid, u, v));
                }
                if table_mirrored(old_adj) {
                    lemma_add_keeps_mirrored(old_adj, u, e, m);
                }
                assert forall|a: u32, b: u32| #[trigger]
                    arc(self.adj(), a, b) <==> arc(old_adj, a, b) || (a == u && b == v) || (a == v && b == u) by {
                    assert(arc(self.adj(), a, b) <==> arc(mid, a, b) || (a == v && b == u));
                    assert(arc(mid, a, b) <==> arc(old_adj, a, b) || (a == u && b == v));
                }
                assert forall|a: u32, b: u32|
                    arc(old_adj, a, b) && !(a == u && b == v) && !(a == v && b == u) implies #[trigger] arc_edge(
                    self.adj(),
                    a,
                    b,
                ) == arc_edge(old_adj, a, b) by {
                    assert(arc(mid, a, b));
                    assert(arc_edge(mid, a, b) == arc_edge(old_adj, a, b));
                    assert(arc_edge(self.adj(), a, b) == arc_edge(mid, a, b));
                }
            }
        }
        Ok(())
    }
}

impl<T> Arcs for Graph<T> {
    open spec fn arc(&self, u: u32, v: u32) -> bool {
        self.has_edge(u, v)
    }

    open spec fn targets(&self, u: u32) -> Seq<u32> {
        if self.adj().contains_key(u) {
            Seq::new(self.adj()[u].len(), |i: int| self.adj()[u][i].target())
        } else {
            Seq::empty()
        }
    }

    open spec fn ready(&self) -> bool {
        self.wf()
    }

    fn successors(&self, u: u32) -> (r: Vec<u32>) {
        match self.get_adjacency(&u) {
            Some(a) => {
                let r = a.targets();
                proof {
                    assert(r@ =~= self.targets(u));
                    assert forall|v: u32| r@.contains(v) <==> self.has_edge(u, v) by {
                        if r@.contains(v) {
                            let i = choose|i: int| 0 <= i < r@.len() && r@[i] == v;
                            assert(a@[i].target() == v);
                        }
                        if self.has_edge(u, v) {
                            let i = crate::adjacency::target_index(a@, v);
                            assert(r@[i] == v);
                        }
                    }
                }
                r
            },
            None => Vec::new(),
        }
    }
}

/// A cursor over the nodes of a graph and their out-edges.
pub struct GraphIter<'a, T> {
    graph: &'a Graph<T>,
    ids: Vec<u32>,
    pos: usize,
}

impl<'a, T> GraphIter<'a, T> {
    /// The ids that the cursor walks, in its order.
    pub closed spec fn order(&self) -> Seq<u32> {
        self.ids@
    }

    /// How many nodes the cursor has handed out.
    pub closed spec fn pos(&self) -> int {
        self.pos as int
    }

    /// The adjacency table of the graph that the cursor walks.
    pub closed spec fn table(&self) -> Map<u32, Seq<Edge<T>>> {
        self.graph.adj()
    }

    /// The cursor walks the ids of a well-formed graph, each once.
    pub closed spec fn wf(&self) -> bool {
        &&& self.graph.wf()
        &&& self.ids@.no_duplicates()
        &&& self.ids@.to_set() == self.graph.adj().dom()
        &&& self.pos <= self.ids@.len()
    }

    /// Hands out the next node with its out-edges, or `None` when all have been handed out.
    pub fn next(&mut self) -> (r: Option<(u32, &'a Adjacency<T>)>)
        requires
            old(self).wf(),
        ensures
            final(self).wf(),
            final(self).order() == old(self).order(),
            final(self).table() == old(self).table(),
            0 <= old(self).pos() <= old(self).order().len(),
            old(self).pos() < old(self).order().len() ==> final(self).pos() == old(self).pos() + 1 && r is Some,
            old(self).pos() == old(self).order().len() ==> final(self).pos() == old(self).pos() && r is None,
            r matches Some(p) ==> p.0 == old(self).order()[old(self).pos()] && old(self).table().contains_key(p.0)
                && p.1@ == old(self).table()[p.0] && p.1.wf(),
    {
        if self.pos < self.ids.len() {
            let id = self.ids[self.pos];
            proof {
                assert(self.ids@.to_set().contains(self.ids@[self.pos as int]));
            }
            let o = self.graph.get_adjacency(&id);
            self.pos = self.pos + 1;
            Some((id, o.unwrap()))
        } else {
            None
        }
    }
}

impl<T> Graph<T> {
    /// A cursor over the nodes and their out-edges: every node once, in no particular order.
    pub fn iter(&self) -> (it: GraphIter<'_, T>)
        requires
            self.wf(),
        ensures
            it.wf(),
            it.pos() == 0,
            it.table() == self.adj(),
            it.order().no_duplicates(),
            it.order().to_set() == self.nodes().dom(),
    {
        GraphIter { graph: self, ids: self.node_ids(), pos: 0 }
    }
}

impl<T> Default for Graph<T> {
    /// An empty undirected graph.
    fn default() -> (g: Self)
        ensures
            g.wf(),
            g.nodes() == Map::<u32, Node<T>>::empty(),
            g.adj() == Map::<u32, Seq<Edge<T>>>::empty(),
            !g.directed(),
    {
        Graph::empty(false)
    }
}

} // verus!
