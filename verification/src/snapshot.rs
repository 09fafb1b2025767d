//! Snapshots: a graph written out as plain lists, and read back.

use std::collections::HashMap;
use vstd::prelude::*;
use vstd::std_specs::hash::group_hash_axioms;
use crate::adjacency::{distinct_targets, Adjacency};
use crate::error::{GraphError, GraphKindError};
use crate::graph::Graph;
use crate::node::{edge_cloned, node_cloned, Edge, Node};

verus! {

/// A graph written out: every node under its id, the out-edges of every node under the
/// node's id, and the directedness flag.
#[derive(Debug)]
pub struct GraphSnapshot<T> {
    pub nodes: Vec<(u32, Node<T>)>,
    pub adjacency: Vec<(u32, Vec<Edge<T>>)>,
    pub is_directed: bool,
}

impl<T> GraphSnapshot<T> {
    /// The ids under which the nodes stand, in order.
    pub open spec fn node_keys(&self) -> Seq<u32> {
        Seq::new(self.nodes@.len(), |i: int| self.nodes@[i].0)
    }

    /// The ids under which the adjacencies stand, in order.
    pub open spec fn adjacency_keys(&self) -> Seq<u32> {
        Seq::new(self.adjacency@.len(), |i: int| self.adjacency@[i].0)
    }

    /// The snapshot describes a well-formed graph: no id stands twice among the nodes or
    /// among the adjacencies, both have the same ids, every node stands under its own id,
    /// and no adjacency holds two edges to one target.
    pub open spec fn valid(&self) -> bool {
        &&& self.node_keys().no_duplicates()
        &&& self.adjacency_keys().no_duplicates()
        &&& self.node_keys().to_set() == self.adjacency_keys().to_set()
        &&& forall|i: int| 0 <= i < self.nodes@.len() ==> (#[trigger] self.nodes@[i]).0 == self.nodes@[i].1.number
        &&& forall|i: int| 0 <= i < self.adjacency@.len() ==> distinct_targets((#[trigger] self.adjacency@[i]).1@)
    }

    /// The snapshot holds exactly what the graph `g` holds.
    pub open spec fn describes(&self, g: &Graph<T>) -> bool {
        &&& self.valid()
        &&& g.directed() == self.is_directed
        &&& g.nodes().dom() == self.node_keys().to_set()
        &&& g.adj().dom() == self.adjacency_keys().to_set()
        &&& forall|i: int| 0 <= i < self.nodes@.len() ==> g.nodes()[(#[trigger] self.nodes@[i]).0] == self.nodes@[i].1
        &&& forall|i: int|
            0 <= i < self.adjacency@.len() ==> g.adj()[(#[trigger] self.adjacency@[i]).0] == self.adjacency@[i].1@
    }
}

impl<T: Clone> GraphSnapshot<T> {
    /// The snapshot holds a copy of what the graph `g` holds: the same ids, nodes cloned from
    /// the nodes of `g`, and for every node the edges of `g` in their order, each cloned.
    pub open spec fn pictures(&self, g: &Graph<T>) -> bool {
        &&& self.valid()
        &&& g.directed() == self.is_directed
        &&& g.nodes().dom() == self.node_keys().to_set()
        &&& forall|i: int|
            0 <= i < self.nodes@.len() ==> node_cloned(g.nodes()[(#[trigger] self.nodes@[i]).0], self.nodes@[i].1)
        &&& forall|i: int|
            0 <= i < self.adjacency@.len() ==> g.adj()[(#[trigger] self.adjacency@[i]).0].len()
                == self.adjacency@[i].1@.len()
        &&& forall|i: int, j: int|
            0 <= i < self.adjacency@.len() && 0 <= j < self.adjacency@[i].1@.len() ==> edge_cloned(
                g.adj()[self.adjacency@[i].0][j],
                #[trigger] self.adjacency@[i].1@[j],
            )
    }
}

/// Writing a graph out and reading it back gives the graph again: the same directedness,
/// the same nodes, and the same edges with the same weights, the payloads being clones.
pub proof fn lemma_round_trip<T: Clone>(g: &Graph<T>, s: &GraphSnapshot<T>, h: &Graph<T>)
    requires
        g.wf(),
        s.pictures(g),
        s.describes(h),
    ensures
        s.valid(),
        h.directed() == g.directed(),
        h.nodes().dom() == g.nodes().dom(),
        forall|k: u32| #[trigger] g.nodes().contains_key(k) ==> node_cloned(g.nodes()[k], h.nodes()[k]),
        forall|u: u32, v: u32| #[trigger] h.has_edge(u, v) <==> g.has_edge(u, v),
        forall|u: u32, v: u32| g.has_edge(u, v) ==> #[trigger] h.weight(u, v) == g.weight(u, v),
        forall|u: u32| #[trigger] g.adj().contains_key(u) ==> h.adj()[u].len() == g.adj()[u].len(),
        forall|u: u32, j: int|
            g.adj().contains_key(u) && 0 <= j < g.adj()[u].len() ==> edge_cloned(
                g.adj()[u][j],
                #[trigger] h.adj()[u][j],
            ),
{
    assert forall|k: u32| #[trigger] g.nodes().contains_key(k) implies node_cloned(g.nodes()[k], h.nodes()[k]) by {
        assert(s.node_keys().to_set().contains(k));
        let i = choose|i: int| 0 <= i < s.node_keys().len() && s.node_keys()[i] == k;
        assert(s.nodes@[i].0 == k);
    }
    assert forall|u: u32| g.adj().contains_key(u) implies h.adj()[u].len() == g.adj()[u].len() && forall|j: int|
        0 <= j < g.adj()[u].len() ==> edge_cloned(g.adj()[u][j], #[trigger] h.adj()[u][j]) by {
        assert(g.nodes().dom().contains(u));
        assert(s.adjacency_keys().to_set().contains(u));
        let i = choose|i: int| 0 <= i < s.adjacency_keys().len() && s.adjacency_keys()[i] == u;
        assert(s.adjacency@[i].0 == u);
        assert forall|j: int| 0 <= j < g.adj()[u].len() implies edge_cloned(g.adj()[u][j], #[trigger] h.adj()[u][j]) by {
            assert(edge_cloned(g.adj()[s.adjacency@[i].0][j], s.adjacency@[i].1@[j]));
        }
    }
    assert forall|u: u32, v: u32| #[trigger] h.has_edge(u, v) <==> g.has_edge(u, v) by {
        if h.has_edge(u, v) {
            assert(h.adj().dom().contains(u));
            assert(s.adjacency_keys().to_set().contains(u)) by {
                assert(h.nodes().dom().contains(u)) by {
                    lemma_same_keys(s, h, u);
                }
            }
            assert(g.nodes().dom().contains(u));
            assert(g.adj().dom().contains(u));
            let j = crate::adjacency::target_index(h.adj()[u], v);
            assert(edge_cloned(g.adj()[u][j], h.adj()[u][j]));
            assert(g.adj()[u][j].target() == v);
        }
        if g.has_edge(u, v) {
            let j = crate::adjacency::target_index(g.adj()[u], v);
            assert(edge_cloned(g.adj()[u][j], h.adj()[u][j]));
            assert(h.adj()[u][j].target() == v);
            lemma_same_keys(s, h, u);
        }
    }
    assert forall|u: u32, v: u32| g.has_edge(u, v) implies #[trigger] h.weight(u, v) == g.weight(u, v) by {
        let j = crate::adjacency::target_index(g.adj()[u], v);
        assert(edge_cloned(g.adj()[u][j], h.adj()[u][j]));
        assert(h.adj()[u][j].target() == v);
        lemma_same_keys(s, h, u);
        assert(h.has_edge(u, v));
        lemma_distinct(s, h, u);
        crate::adjacency::lemma_target_index_unique(h.adj()[u], j);
        crate::adjacency::lemma_target_index_unique(g.adj()[u], j);
    }
}

proof fn lemma_same_keys<T>(s: &GraphSnapshot<T>, h: &Graph<T>, u: u32)
    requires
        s.describes(h),
    ensures
        h.adj().dom().contains(u) ==> s.adjacency_keys().to_set().contains(u),
        s.adjacency_keys().to_set().contains(u) ==> h.nodes().dom().contains(u),
{
}

proof fn lemma_distinct<T>(s: &GraphSnapshot<T>, h: &Graph<T>, u: u32)
    requires
        s.describes(h),
        s.adjacency_keys().to_set().contains(u),
    ensures
        distinct_targets(h.adj()[u]),
{
    let i = choose|i: int| 0 <= i < s.adjacency_keys().len() && s.adjacency_keys()[i] == u;
    assert(s.adjacency@[i].0 == u);
    assert(distinct_targets(s.adjacency@[i].1@));
}

impl<T: Clone> Graph<T> {
    /// Writes the graph out, cloning its nodes and edges.
    pub fn to_snapshot(&self) -> (s: GraphSnapshot<T>)
        requires
            self.wf(),
        ensures
            s.pictures(self),
    {
        let ids = self.node_ids();
        let mut nodes: Vec<(u32, Node<T>)> = Vec::new();
        let mut adjacency: Vec<(u32, Vec<Edge<T>>)> = Vec::new();
        let mut i: usize = 0;
        while i < ids.len()
            invariant
                i <= ids@.len(),
                self.wf(),
                ids@.to_set() == self.nodes().dom(),
                nodes@.len() == i,
                adjacency@.len() == i,
                forall|k: int| 0 <= k < i ==> (#[trigger] nodes@[k]).0 == ids@[k] && nodes@[k].1.number == ids@[k],
                forall|k: int| 0 <= k < i ==> (#[trigger] adjacency@[k]).0 == ids@[k],
                forall|k: int| 0 <= k < i ==> node_cloned(self.nodes()[ids@[k]], (#[trigger] nodes@[k]).1),
                forall|k: int|
                    0 <= k < i ==> self.adj()[ids@[k]].len() == (#[trigger] adjacency@[k]).1@.len() && distinct_targets(
                        adjacency@[k].1@,
                    ),
                forall|k: int, j: int|
                    0 <= k < i && 0 <= j < adjacency@[k].1@.len() ==> edge_cloned(
                        self.adj()[ids@[k]][j],
                        #[trigger] adjacency@[k].1@[j],
                    ),
            decreases ids@.len() - i,
        {
            let id = ids[i];
            proof {
                assert(ids@.to_set().contains(ids@[i as int]));
                assert(self.adj().dom().contains(id));
                assert(self.nodes()[id].number == id);
            }
            let n = self.get_node(&id).unwrap().clone();
            let a = self.get_adjacency(&id).unwrap().clone();
            let list = a.into_edges();
            nodes.push((id, n));
            adjacency.push((id, list));
            i += 1;
        }
        let s = GraphSnapshot { nodes, adjacency, is_directed: self.get_is_directed() };
        proof {
            assert(s.node_keys() =~= ids@);
            assert(s.adjacency_keys() =~= ids@);
        }
        s
    }
}

impl<T: Clone> Graph<T> {
    /// A copy of the graph: the same directedness, the same nodes, and the same edges with
    /// the same weights, the payloads being clones.
    pub fn duplicate(&self) -> (h: Self)
        requires
            self.wf(),
        ensures
            h.wf(),
            h.directed() == self.directed(),
            h.nodes().dom() == self.nodes().dom(),
            forall|k: u32| #[trigger] self.nodes().contains_key(k) ==> node_cloned(self.nodes()[k], h.nodes()[k]),
            forall|u: u32, v: u32| #[trigger] h.has_edge(u, v) <==> self.has_edge(u, v),
            forall|u: u32, v: u32| self.has_edge(u, v) ==> #[trigger] h.weight(u, v) == self.weight(u, v),
            forall|u: u32| #[trigger] self.adj().contains_key(u) ==> h.adj()[u].len() == self.adj()[u].len(),
            forall|u: u32, j: int|
                self.adj().contains_key(u) && 0 <= j < self.adj()[u].len() ==> edge_cloned(
                    self.adj()[u][j],
                    #[trigger] h.adj()[u][j],
                ),
    {
        let s = self.to_snapshot();
        let ghost snap = s;
        match Graph::from_snapshot(s) {
            Ok(h) => {
                proof {
                    lemma_round_trip(self, &snap, &h);
                }
                h
            },
            Err(_) => Graph::empty(self.get_is_directed()),
        }
    }
}

impl<T> Graph<T> {
    /// Reads a graph back from a snapshot.
    ///
    /// `SerializationFailure` where the snapshot is not valid.
    pub fn from_snapshot(snapshot: GraphSnapshot<T>) -> (r: Result<Graph<T>, GraphError>)
        ensures
            r is Ok <==> snapshot.valid(),
            r matches Ok(g) ==> g.wf() && snapshot.describes(&g),
            r matches Err(e) ==> e.spec_kind() == GraphKindError::SerializationFailure,
    {
        broadcast use group_hash_axioms;

        let ghost snap = snapshot;
        let ghost all_nodes = snapshot.nodes@;
        let ghost all_lists = snapshot.adjacency@;
        let ghost nkeys = snapshot.node_keys();
        let ghost akeys = snapshot.adjacency_keys();
        let GraphSnapshot { nodes, adjacency, is_directed } = snapshot;
        let mut nodes = nodes;
        let mut adjacency = adjacency;
        let mut table: HashMap<u32, Adjacency<T>> = HashMap::new();
        while adjacency.len() > 0
            invariant
                adjacency@.len() <= all_lists.len(),
                adjacency@ == all_lists.take(adjacency@.len() as int),
                snap == snapshot,
                all_nodes == snap.nodes@,
                all_lists == snap.adjacency@,
                nkeys == snap.node_keys(),
                akeys == snap.adjacency_keys(),
                akeys == Seq::new(all_lists.len(), |i: int| all_lists[i].0),
                forall|a: int, b: int|
                    adjacency@.len() <= a < b < all_lists.len() ==> #[trigger] akeys[a] != #[trigger] akeys[b],
                forall|k: u32| #[trigger]
                    table@.contains_key(k) <==> exists|a: int|
                        adjacency@.len() <= a < all_lists.len() && #[trigger] akeys[a] == k,
                forall|a: int|
                    adjacency@.len() <= a < all_lists.len() ==> table@[#[trigger] akeys[a]]@ == all_lists[a].1@
                        && distinct_targets(all_lists[a].1@),
            decreases adjacency@.len(),
        {
            let ghost n = adjacency@.len() - 1;
            let ghost table0 = table@;
            let entry = adjacency.pop().unwrap();
            let key = entry.0;
            proof {
                assert(entry == all_lists[n]);
                assert(akeys[n] == key);
                assert(adjacency@ =~= all_lists.take(n));
            }
            if table.contains_key(&key) {
                proof {
                    let a = choose|a: int| n + 1 <= a < all_lists.len() && #[trigger] akeys[a] == key;
                    assert(akeys[n] == akeys[a]);
                    assert(!akeys.no_duplicates());
                }
                return Err(GraphError::new(GraphKindError::SerializationFailure, "an adjacency stands twice"));
            }
            match Adjacency::from_edges(entry.1) {
                None => {
                    proof {
                        assert(!distinct_targets(all_lists[n].1@));
                    }
                    return Err(
                        GraphError::new(GraphKindError::SerializationFailure, "an adjacency holds an edge twice"),
                    );
                },
                Some(a) => {
                    table.insert(key, a);
                    proof {
                        assert forall|k: u32| #[trigger]
                            table@.contains_key(k) <==> exists|a: int|
                                n <= a < all_lists.len() && #[trigger] akeys[a] == k by {
                            if table0.contains_key(k) {
                                let a = choose|a: int| n + 1 <= a < all_lists.len() && #[trigger] akeys[a] == k;
                                assert(n <= a);
                            }
                            if exists|a: int| n <= a < all_lists.len() && #[trigger] akeys[a] == k {
                                let a = choose|a: int| n <= a < all_lists.len() && #[trigger] akeys[a] == k;
                                if a > n {
                                    assert(table0.contains_key(k));
                                }
                            }
                        }
                        assert forall|a: int, b: int| n <= a < b < all_lists.len() implies #[trigger] akeys[a]
                            != #[trigger] akeys[b] by {
                            if a == n {
                                if akeys[b] == key {
                                    assert(table0.contains_key(key));
                                }
                            }
                        }
                        assert forall|a: int| n <= a < all_lists.len() implies table@[#[trigger] akeys[a]]@
                            == all_lists[a].1@ && distinct_targets(all_lists[a].1@) by {
                            if a > n {
                                assert(akeys[a] != akeys[n]);
                                assert(table0[akeys[a]]@ == all_lists[a].1@);
                            }
                        }
                    }
                },
            }
        }
        proof {
            assert(akeys.no_duplicates());
            assert(table@.dom() =~= akeys.to_set()) by {
                assert forall|k: u32| table@.dom().contains(k) <==> akeys.to_set().contains(k) by {
                    if table@.contains_key(k) {
                        let a = choose|a: int| 0 <= a < all_lists.len() && #[trigger] akeys[a] == k;
                        assert(akeys.contains(k));
                    }
                    if akeys.contains(k) {
                        let a = choose|a: int| 0 <= a < akeys.len() && akeys[a] == k;
                        assert(akeys[a] == k);
                    }
                }
            }
        }
        let ghost full = table@;
        let mut g: Graph<T> = Graph::empty(is_directed);
        while nodes.len() > 0
            invariant
                nodes@.len() <= all_nodes.len(),
                nodes@ == all_nodes.take(nodes@.len() as int),
                snap == snapshot,
                all_nodes == snap.nodes@,
                all_lists == snap.adjacency@,
                nkeys == snap.node_keys(),
                akeys == snap.adjacency_keys(),
                nkeys == Seq::new(all_nodes.len(), |i: int| all_nodes[i].0),
                akeys == Seq::new(all_lists.len(), |i: int| all_lists[i].0),
                akeys.no_duplicates(),
                full.dom() == akeys.to_set(),
                forall|a: int|
                    0 <= a < all_lists.len() ==> full[#[trigger] akeys[a]]@ == all_lists[a].1@ && distinct_targets(
                        all_lists[a].1@,
                    ),
                g.wf(),
                g.directed() == is_directed,
                forall|a: int, b: int| nodes@.len() <= a < b < all_nodes.len() ==> #[trigger] nkeys[a] != #[trigger] nkeys[b],
                forall|a: int| nodes@.len() <= a < all_nodes.len() ==> (#[trigger] all_nodes[a]).0 == all_nodes[a].1.number,
                forall|k: u32| #[trigger]
                    g.nodes().contains_key(k) <==> exists|a: int|
                        nodes@.len() <= a < all_nodes.len() && #[trigger] nkeys[a] == k,
                forall|a: int| nodes@.len() <= a < all_nodes.len() ==> g.nodes()[#[trigger] nkeys[a]] == all_nodes[a].1,
                forall|k: u32| #[trigger] g.nodes().contains_key(k) ==> full.contains_key(k) && g.adj()[k] == full[k]@,
                forall|k: u32| #[trigger] table@.contains_key(k) <==> full.contains_key(k) && !g.nodes().contains_key(k),
                forall|k: u32| #[trigger] table@.contains_key(k) ==> table@[k] == full[k],
            decreases nodes@.len(),
        {
            let ghost n = nodes@.len() - 1;
            let ghost g0 = g;
            let ghost table0 = table@;
            let entry = nodes.pop().unwrap();
            let key = entry.0;
            let node = entry.1;
            proof {
                assert(entry == all_nodes[n]);
                assert(nkeys[n] == key);
                assert(nodes@ =~= all_nodes.take(n));
            }
            if node.number != key {
                return Err(GraphError::new(GraphKindError::SerializationFailure, "a node stands under another id"));
            }
            match table.remove(&key) {
                None => {
                    proof {
                        if g.nodes().contains_key(key) {
                            let a = choose|a: int| n + 1 <= a < all_nodes.len() && #[trigger] nkeys[a] == key;
                            assert(nkeys[n] == nkeys[a]);
                            assert(!nkeys.no_duplicates());
                        } else {
                            assert(!full.contains_key(key));
                            assert(nkeys.to_set().contains(nkeys[n]));
                            assert(!akeys.to_set().contains(key));
                        }
                    }
                    return Err(GraphError::new(GraphKindError::SerializationFailure, "a node has no adjacency"));
                },
                Some(a) => {
                    proof {
                        assert(table0.contains_key(key));
                        assert(a == full[key]);
                        let x = choose|x: int| 0 <= x < akeys.len() && akeys[x] == key;
                        assert(full[akeys[x]]@ == all_lists[x].1@);
                    }
                    g.insert_entry(node, a);
                    proof {
                        assert forall|k: u32| #[trigger]
                            g.nodes().contains_key(k) <==> exists|a: int|
                                n <= a < all_nodes.len() && #[trigger] nkeys[a] == k by {
                            if g0.nodes().contains_key(k) {
                                let a = choose|a: int| n + 1 <= a < all_nodes.len() && #[trigger] nkeys[a] == k;
                                assert(n <= a);
                            }
                            if exists|a: int| n <= a < all_nodes.len() && #[trigger] nkeys[a] == k {
                                let a = choose|a: int| n <= a < all_nodes.len() && #[trigger] nkeys[a] == k;
                                if a > n {
                                    assert(g0.nodes().contains_key(k));
                                }
                            }
                        }
                        assert forall|a: int, b: int| n <= a < b < all_nodes.len() implies #[trigger] nkeys[a]
                            != #[trigger] nkeys[b] by {
                            if a == n && nkeys[b] == key {
                                assert(g0.nodes().contains_key(key));
                            }
                        }
                        assert forall|a: int| n <= a < all_nodes.len() implies g.nodes()[#[trigger] nkeys[a]]
                            == all_nodes[a].1 by {
                            if a > n {
                                assert(nkeys[a] != nkeys[n]);
                                assert(g0.nodes()[nkeys[a]] == all_nodes[a].1);
                            }
                        }
                        assert forall|k: u32| #[trigger] g.nodes().contains_key(k) implies full.contains_key(k)
                            && g.adj()[k] == full[k]@ by {
                            if k != key {
                                assert(g0.nodes().contains_key(k));
                            }
                        }
                        assert forall|k: u32| #[trigger]
                            table@.contains_key(k) <==> full.contains_key(k) && !g.nodes().contains_key(k) by {
                            assert(table0.contains_key(k) <==> full.contains_key(k) && !g0.nodes().contains_key(k));
                        }
                    }
                },
            }
        }
        proof {
            assert(nkeys.no_duplicates());
            assert(g.nodes().dom() =~= nkeys.to_set()) by {
                assert forall|k: u32| g.nodes().dom().contains(k) <==> nkeys.to_set().contains(k) by {
                    if g.nodes().contains_key(k) {
                        let a = choose|a: int| 0 <= a < all_nodes.len() && #[trigger] nkeys[a] == k;
                        assert(nkeys.contains(k));
                    }
                    if nkeys.contains(k) {
                        let a = choose|a: int| 0 <= a < nkeys.len() && nkeys[a] == k;
                        assert(nkeys[a] == k);
                    }
                }
            }
        }
        if table.len() > 0 {
            proof {
                assert(table@.dom().len() > 0);
                let k = table@.dom().choose();
                assert(table@.contains_key(k));
                assert(akeys.to_set().contains(k) && !nkeys.to_set().contains(k));
            }
            return Err(GraphError::new(GraphKindError::SerializationFailure, "an adjacency belongs to no node"));
        }
        proof {
            assert(nkeys.to_set() =~= akeys.to_set()) by {
                assert forall|k: u32| nkeys.to_set().contains(k) <==> akeys.to_set().contains(k) by {
                    if akeys.to_set().contains(k) && !nkeys.to_set().contains(k) {
                        assert(table@.contains_key(k));
                        assert(table@.dom().contains(k));
                        assert(table@.dom().len() == 0);
                        assert(table@.dom().finite());
                        assert(table@.dom() =~= Set::<u32>::empty()) by {
                            table@.dom().lemma_len0_is_empty();
                        }
                    }
                }
            }
            assert forall|i: int| 0 <= i < all_lists.len() implies g.adj()[(#[trigger] all_lists[i]).0]
                == all_lists[i].1@ by {
                assert(akeys[i] == all_lists[i].0);
                assert(akeys.to_set().contains(akeys[i]));
                assert(g.nodes().contains_key(akeys[i]));
                assert(full[akeys[i]]@ == all_lists[i].1@);
            }
            assert forall|i: int| 0 <= i < all_nodes.len() implies g.nodes()[(#[trigger] all_nodes[i]).0]
                == all_nodes[i].1 by {
                assert(g.nodes()[nkeys[i]] == all_nodes[i].1);
            }
            assert(snap.node_keys().no_duplicates());
            assert(snap.adjacency_keys().no_duplicates());
            assert(snap.node_keys().to_set() == snap.adjacency_keys().to_set());
            assert(forall|i: int| 0 <= i < snap.nodes@.len() ==> (#[trigger] snap.nodes@[i]).0 == snap.nodes@[i].1.number);
            assert(forall|i: int| 0 <= i < snap.adjacency@.len() ==> distinct_targets((#[trigger] snap.adjacency@[i]).1@)) by {
                assert forall|i: int| 0 <= i < snap.adjacency@.len() implies distinct_targets((#[trigger] snap.adjacency@[i]).1@) by {
                    assert(full[akeys[i]]@ == all_lists[i].1@ && distinct_targets(all_lists[i].1@));
                }
            }
            assert(snap.valid());
            assert(g.nodes().dom() == snap.node_keys().to_set());
            assert(g.adj().dom() == snap.adjacency_keys().to_set());
            assert(snap.describes(&g));
        }
        Ok(g)
    }
}

} // verus!
