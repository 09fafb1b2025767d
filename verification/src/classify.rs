//! Whether a directed graph is a tree, a forest, or neither.

use std::collections::{HashMap, HashSet};
use vstd::prelude::*;
use vstd::std_specs::hash::group_hash_axioms;
use crate::adjacency::{lemma_target_index_unique, target_index};
use crate::counting::{
    chosen, lemma_chosen_all, lemma_chosen_none, lemma_chosen_step, lemma_pairs_all,
    lemma_pairs_none, lemma_pairs_step, pairs, row, Property,
};
use crate::cycles::{color_of, cycle_from, reaches_cycle, settled, ColorNode};
use crate::error::{GraphError, GraphKindError};
use crate::graph::{edge_before, lemma_edge_before_all, lemma_edge_before_next, lemma_edge_before_step, Graph};
use crate::node::Edge;
use crate::paths::{
    has_cycle, lemma_distinct_ids_bound, lemma_reach_symmetric, lemma_reach_trans, on_cycle, reachable,
    walk_between, Relation,
};
use crate::search::{relation, search, Arcs};

verus! {

/// What kind of graph a directed graph is.
#[derive(Debug, Clone, Copy, PartialEq, Eq, Structural)]
pub enum GraphType {
    /// No cycle, and one edge fewer than nodes.
    Tree,
    /// Not a tree, and every part that hangs together is one.
    Forest,
    /// Neither.
    Default,
}

/// The edges of the graph, as pairs of ids.
pub open spec fn edge_set<T>(g: &Graph<T>) -> Set<(u32, u32)> {
    Set::new(|e: (u32, u32)| g.has_edge(e.0, e.1))
}

/// The targets of the edges of `s`, in order.
pub open spec fn targets_of<T>(s: Seq<Edge<T>>) -> Seq<u32> {
    Seq::new(s.len(), |i: int| s[i].target())
}

/// Edges with distinct targets have targets without repetition.
pub proof fn lemma_targets_distinct<T>(s: Seq<Edge<T>>)
    requires
        crate::adjacency::distinct_targets(s),
    ensures
        targets_of(s).no_duplicates(),
        targets_of(s).len() <= 0x1_0000_0000,
{
    let t = targets_of(s);
    assert forall|i: int, j: int| 0 <= i < t.len() && 0 <= j < t.len() && i != j implies t[i] != t[j] by {
        if i < j {
            assert(s[i].target() != s[j].target());
        } else {
            assert(s[j].target() != s[i].target());
        }
    }
    lemma_distinct_ids_bound(t);
}

/// The targets of an adjacency are as many as its edges.
pub proof fn lemma_row_len<T>(g: &Graph<T>, u: u32)
    requires
        g.wf(),
        g.adj().contains_key(u),
    ensures
        row(u, g.arcs()).finite(),
        row(u, g.arcs()).len() == g.adj()[u].len(),
{
    let s = g.adj()[u];
    let t = targets_of(s);
    lemma_targets_distinct(s);
    assert(t.to_set() =~= row(u, g.arcs())) by {
        assert forall|v: u32| t.to_set().contains(v) <==> row(u, g.arcs()).contains(v) by {
            if t.contains(v) {
                let i = choose|i: int| 0 <= i < t.len() && t[i] == v;
                assert(s[i].target() == v);
            }
            if g.has_edge(u, v) {
                let i = target_index(s, v);
                assert(t[i] == v);
            }
        }
    }
    t.unique_seq_to_set();
}

/// The number of edges.
pub fn count_edges<T>(graph: &Graph<T>) -> (n: u128)
    requires
        graph.wf(),
    ensures
        edge_set(graph).finite(),
        n == edge_set(graph).len(),
        n <= 0x1_0000_0000_0000_0000,
{
    let ids = graph.node_ids();
    let ghost q = graph.arcs();
    let mut total: u128 = 0;
    let mut i: usize = 0;
    proof {
        lemma_pairs_none(ids@, q);
        lemma_distinct_ids_bound(ids@);
    }
    while i < ids.len()
        invariant
            i <= ids@.len(),
            ids@.len() <= 0x1_0000_0000,
            graph.wf(),
            q == graph.arcs(),
            ids@.no_duplicates(),
            ids@.to_set() == graph.nodes().dom(),
            pairs(ids@, i as int, q).finite(),
            total == pairs(ids@, i as int, q).len(),
            total <= i * 0x1_0000_0000,
        decreases ids@.len() - i,
    {
        let id = ids[i];
        proof {
            assert(ids@.to_set().contains(ids@[i as int]));
            assert(graph.adj().dom().contains(id));
            lemma_row_len(graph, id);
            lemma_pairs_step(ids@, i as int, q);
            lemma_targets_distinct(graph.adj()[id]);
        }
        let o = graph.get_adjacency(&id);
        let a = o.unwrap();
        total = total + a.len() as u128;
        i += 1;
    }
    proof {
        lemma_pairs_all(ids@, q);
        assert(pairs(ids@, ids@.len() as int, q) =~= edge_set(graph)) by {
            assert forall|e: (u32, u32)| q(e.0, e.1) implies ids@.contains(e.0) by {
                assert(graph.has_edge(e.0, e.1));
                assert(graph.adj().dom().contains(e.0));
                assert(ids@.to_set().contains(e.0));
            }
        }
    }
    total
}

/// A colour table in which every node of the graph is white.
pub fn get_nodes_with_color<T>(graph: &Graph<T>) -> (colors: HashMap<u32, ColorNode>)
    requires
        graph.wf(),
    ensures
        colors@.dom() == graph.nodes().dom(),
        forall|v: u32| #[trigger] color_of(colors@, v) == ColorNode::White,
        settled(graph.arcs(), colors@),
{
    broadcast use group_hash_axioms;

    let ids = graph.node_ids();
    let mut colors: HashMap<u32, ColorNode> = HashMap::new();
    let mut i: usize = 0;
    while i < ids.len()
        invariant
            i <= ids@.len(),
            forall|v: u32| colors@.contains_key(v) <==> exists|j: int| 0 <= j < i && #[trigger] ids@[j] == v,
            forall|v: u32| #[trigger] color_of(colors@, v) == ColorNode::White,
        decreases ids@.len() - i,
    {
        let ghost before = colors@;
        colors.insert(ids[i], ColorNode::White);
        proof {
            assert forall|v: u32| colors@.contains_key(v) <==> exists|j: int| 0 <= j < i + 1 && #[trigger] ids@[j]
                == v by {
                if before.contains_key(v) {
                    let j = choose|j: int| 0 <= j < i && #[trigger] ids@[j] == v;
                    assert(0 <= j < i + 1);
                }
                if exists|j: int| 0 <= j < i + 1 && #[trigger] ids@[j] == v {
                    let j = choose|j: int| 0 <= j < i + 1 && #[trigger] ids@[j] == v;
                    if j < i {
                        assert(before.contains_key(v));
                    }
                }
            }
            assert forall|v: u32| #[trigger] color_of(colors@, v) == ColorNode::White by {
                assert(color_of(before, v) == ColorNode::White);
            }
        }
        i += 1;
    }
    proof {
        assert(colors@.dom() =~= graph.nodes().dom()) by {
            assert forall|v: u32| colors@.dom().contains(v) <==> graph.nodes().dom().contains(v) by {
                if colors@.contains_key(v) {
                    let j = choose|j: int| 0 <= j < ids@.len() && #[trigger] ids@[j] == v;
                    assert(ids@.to_set().contains(ids@[j]));
                }
                if graph.nodes().dom().contains(v) {
                    assert(ids@.to_set().contains(v));
                    let j = choose|j: int| 0 <= j < ids@.len() && ids@[j] == v;
                    assert(ids@[j] == v);
                }
            }
        }
    }
    colors
}

/// Searches depth-first from `start` for a cycle, with the colours in `visited`, which finished
/// searches have left. Returns whether `start` reaches a cycle.
///
/// `NodeNotFound` where the graph has no node `start`.
pub fn graph_have_cycle<T>(graph: &Graph<T>, start: &u32, visited: &mut HashMap<u32, ColorNode>) -> (r: Result<
    bool,
    GraphError,
>)
    requires
        graph.wf(),
        settled(graph.arcs(), old(visited)@),
    ensures
        r is Ok <==> graph.nodes().contains_key(*start),
        r matches Err(e) ==> e.spec_kind() == GraphKindError::NodeNotFound && final(visited)@ == old(visited)@,
        r matches Ok(found) ==> {
            &&& found == reaches_cycle(graph.arcs(), *start)
            &&& !found ==> settled(graph.arcs(), final(visited)@) && color_of(final(visited)@, *start)
                == ColorNode::Black
            &&& !found ==> forall|v: u32| #[trigger]
                color_of(final(visited)@, v) == if color_of(old(visited)@, v) == ColorNode::Black || reachable(
                    graph.arcs(),
                    *start,
                    v,
                ) {
                    ColorNode::Black
                } else {
                    color_of(old(visited)@, v)
                }
        },
{
    if graph.get_node(start).is_none() {
        return Err(GraphError::new(GraphKindError::NodeNotFound, "the graph has no such node"));
    }
    proof {
        assert(relation(graph) =~= graph.arcs());
    }
    Ok(cycle_from(graph, *start, visited))
}

/// Whether the graph has a cycle.
pub fn has_directed_cycle<T>(graph: &Graph<T>) -> (b: bool)
    requires
        graph.wf(),
    ensures
        b == has_cycle(graph.arcs()),
{
    let ghost r = graph.arcs();
    let ids = graph.node_ids();
    let mut colors: HashMap<u32, ColorNode> = HashMap::new();
    proof {
        assert(relation(graph) =~= r);
        assert(settled(r, colors@)) by {
            assert forall|v: u32| #[trigger] color_of(colors@, v) != ColorNode::Gray by {}
        }
    }
    let mut i: usize = 0;
    while i < ids.len()
        invariant
            i <= ids@.len(),
            graph.wf(),
            r == graph.arcs(),
            relation(graph) == r,
            ids@.to_set() == graph.nodes().dom(),
            settled(r, colors@),
            forall|j: int| 0 <= j < i ==> color_of(colors@, #[trigger] ids@[j]) == ColorNode::Black,
        decreases ids@.len() - i,
    {
        let ghost before = colors@;
        let found = cycle_from(graph, ids[i], &mut colors);
        if found {
            proof {
                let c = choose|c: u32| #[trigger] reachable(r, ids@[i as int], c) && on_cycle(r, c);
                assert(on_cycle(r, c));
            }
            return true;
        }
        proof {
            assert forall|j: int| 0 <= j < i + 1 implies color_of(colors@, #[trigger] ids@[j]) == ColorNode::Black by {
                if j < i {
                    assert(color_of(before, ids@[j]) == ColorNode::Black);
                }
            }
        }
        i += 1;
    }
    proof {
        assert(!has_cycle(r)) by {
            if has_cycle(r) {
                let c = choose|c: u32| #[trigger] on_cycle(r, c);
                let p = choose|p: Seq<u32>| #[trigger] walk_between(r, p, c, c) && p.len() >= 2;
                assert(r(p[0int], p[0int + 1]));
                assert(graph.has_edge(c, p[1]));
                assert(graph.nodes().dom().contains(c));
                assert(ids@.to_set().contains(c));
                let j = choose|j: int| 0 <= j < ids@.len() && ids@[j] == c;
                assert(color_of(colors@, ids@[j]) == ColorNode::Black);
            }
        }
    }
    false
}

/// The graph has no cycle, and one edge fewer than nodes.
pub open spec fn tree<T>(g: &Graph<T>) -> bool {
    !has_cycle(g.arcs()) && g.nodes().dom().len() == edge_set(g).len() + 1
}

/// Whether the graph is a tree: whether it has no cycle, and one edge fewer than nodes.
pub fn is_a_tree<T>(graph: &Graph<T>) -> (b: bool)
    requires
        graph.wf(),
    ensures
        b == tree(graph),
{
    let edges = count_edges(graph);
    let nodes = graph.len();
    if nodes as u128 != edges + 1 {
        return false;
    }
    !has_directed_cycle(graph)
}

/// A table of neighbours: for each node, the nodes that it is joined to.
#[derive(Debug)]
pub struct Links {
    table: HashMap<u32, Vec<u32>>,
}

impl Links {
    /// The table joins `u` to `v`.
    pub closed spec fn joined(&self, u: u32, v: u32) -> bool {
        self.table@.contains_key(u) && self.table@[u]@.contains(v)
    }

    /// A table that joins nothing.
    pub fn new() -> (t: Self)
        ensures
            forall|u: u32, v: u32| !#[trigger] t.joined(u, v),
    {
        Links { table: HashMap::new() }
    }

    /// Joins `u` to `v`.
    pub fn join(&mut self, u: u32, v: u32)
        ensures
            forall|x: u32, y: u32| #[trigger] final(self).joined(x, y) <==> old(self).joined(x, y) || (x == u && y == v),
    {
        broadcast use group_hash_axioms;

        let ghost before = self.table@;
        let mut list = match self.table.remove(&u) {
            Some(l) => l,
            None => Vec::new(),
        };
        let ghost l0 = list@;
        list.push(v);
        self.table.insert(u, list);
        proof {
            assert forall|x: u32, y: u32| #[trigger] self.joined(x, y) <==> old(self).joined(x, y) || (x == u && y
                == v) by {
                if x == u {
                    if self.table@[u]@.contains(y) {
                        let i = choose|i: int| 0 <= i < list@.len() && list@[i] == y;
                        if i < l0.len() {
                            assert(l0[i] == y);
                            assert(l0.contains(y));
                        }
                    }
                    if old(self).joined(x, y) {
                        let i = choose|i: int| 0 <= i < l0.len() && l0[i] == y;
                        assert(list@[i] == y);
                    }
                    if y == v {
                        assert(list@[list@.len() - 1] == v);
                    }
                }
            }
        }
    }
}

impl Arcs for Links {
    open spec fn arc(&self, u: u32, v: u32) -> bool {
        self.joined(u, v)
    }

    closed spec fn targets(&self, u: u32) -> Seq<u32> {
        if self.table@.contains_key(u) {
            self.table@[u]@
        } else {
            Seq::empty()
        }
    }

    open spec fn ready(&self) -> bool {
        true
    }

    fn successors(&self, u: u32) -> (r: Vec<u32>) {
        broadcast use group_hash_axioms;

        let mut r: Vec<u32> = Vec::new();
        match self.table.get(&u) {
            None => {},
            Some(list) => {
                let mut i: usize = 0;
                while i < list.len()
                    invariant
                        i <= list@.len(),
                        r@ == list@.take(i as int),
                    decreases list@.len() - i,
                {
                    r.push(list[i]);
                    proof {
                        assert(list@.take(i + 1) =~= list@.take(i as int).push(list@[i as int]));
                    }
                    i += 1;
                }
                proof {
                    assert(list@.take(list@.len() as int) =~= list@);
                }
            },
        }
        r
    }
}

/// Two nodes of the graph stand beside each other: an edge leads from one to the other.
pub open spec fn beside<T>(g: &Graph<T>) -> Relation {
    |u: u32, v: u32|
        g.nodes().contains_key(u) && g.nodes().contains_key(v) && (g.has_edge(u, v) || g.has_edge(v, u))
}

/// The table that joins every node to the nodes beside it.
pub fn neighbours<T>(graph: &Graph<T>) -> (t: Links)
    requires
        graph.wf(),
    ensures
        forall|u: u32, v: u32| #[trigger] t.joined(u, v) <==> beside(graph)(u, v),
{
    let ghost adj = graph.adj();
    let ids = graph.node_ids();
    let mut t = Links::new();
    let mut i: usize = 0;
    proof {
        lemma_edge_before_all(adj, ids@);
    }
    while i < ids.len()
        invariant
            i <= ids@.len(),
            graph.wf(),
            adj == graph.adj(),
            ids@.no_duplicates(),
            ids@.to_set() == graph.nodes().dom(),
            forall|x: u32, y: u32| #[trigger]
                t.joined(x, y) <==> (edge_before(adj, ids@, i as int, 0, x, y) && graph.nodes().contains_key(y)) || (
                edge_before(adj, ids@, i as int, 0, y, x) && graph.nodes().contains_key(x)),
        decreases ids@.len() - i,
    {
        let id = ids[i];
        proof {
            assert(ids@.to_set().contains(ids@[i as int]));
            assert(graph.adj().dom().contains(id));
        }
        let o = graph.get_adjacency(&id);
        let a = o.unwrap();
        let ghost edges = a@;
        let mut j: usize = 0;
        while j < a.len()
            invariant
                j <= edges.len(),
                i < ids@.len(),
                id == ids@[i as int],
                edges == a@,
                adj.contains_key(id),
                edges == adj[id],
                graph.wf(),
                adj == graph.adj(),
                ids@.no_duplicates(),
                forall|x: u32, y: u32| #[trigger]
                    t.joined(x, y) <==> (edge_before(adj, ids@, i as int, j as int, x, y)
                        && graph.nodes().contains_key(y)) || (edge_before(adj, ids@, i as int, j as int, y, x)
                        && graph.nodes().contains_key(x)),
            decreases edges.len() - j,
        {
            let v = a.edge(j).node.number;
            let ghost before = t;
            proof {
                lemma_edge_before_step(adj, ids@, i as int, j as int);
                lemma_target_index_unique(edges, j as int);
            }
            if graph.get_node(&v).is_some() {
                t.join(id, v);
                t.join(v, id);
            }
            proof {
                assert forall|x: u32, y: u32| #[trigger]
                    t.joined(x, y) <==> (edge_before(adj, ids@, i as int, j + 1, x, y)
                        && graph.nodes().contains_key(y)) || (edge_before(adj, ids@, i as int, j + 1, y, x)
                        && graph.nodes().contains_key(x)) by {
                    assert(before.joined(x, y) <==> (edge_before(adj, ids@, i as int, j as int, x, y)
                        && graph.nodes().contains_key(y)) || (edge_before(adj, ids@, i as int, j as int, y, x)
                        && graph.nodes().contains_key(x)));
                    assert(edge_before(adj, ids@, i as int, j + 1, x, y) <==> edge_before(
                        adj,
                        ids@,
                        i as int,
                        j as int,
                        x,
                        y,
                    ) || (x == id && y == v));
                    assert(edge_before(adj, ids@, i as int, j + 1, y, x) <==> edge_before(
                        adj,
                        ids@,
                        i as int,
                        j as int,
                        y,
                        x,
                    ) || (y == id && x == v));
                }
            }
            j += 1;
        }
        proof {
            lemma_edge_before_next(adj, ids@, i as int);
        }
        i += 1;
    }
    proof {
        assert forall|u: u32, v: u32| #[trigger] t.joined(u, v) <==> beside(graph)(u, v) by {
            assert(t.joined(u, v) <==> (edge_before(adj, ids@, ids@.len() as int, 0, u, v)
                && graph.nodes().contains_key(v)) || (edge_before(adj, ids@, ids@.len() as int, 0, v, u)
                && graph.nodes().contains_key(u)));
            if graph.has_edge(u, v) {
                assert(graph.adj().dom().contains(u));
            }
            if graph.has_edge(v, u) {
                assert(graph.adj().dom().contains(v));
            }
        }
    }
    t
}

/// The part of the graph in which `s` lies: all that `s` reaches when edges are read both
/// ways.
pub open spec fn part<T>(g: &Graph<T>, s: u32) -> Set<u32> {
    Set::new(|v: u32| reachable(beside(g), s, v))
}

/// The edges of the graph that start in the part of `s` and lead to a node.
pub open spec fn part_edges<T>(g: &Graph<T>, s: u32) -> Set<(u32, u32)> {
    Set::new(|e: (u32, u32)| part(g, s).contains(e.0) && g.has_edge(e.0, e.1) && g.nodes().contains_key(e.1))
}

/// The part of `s` has one edge fewer than nodes.
pub open spec fn part_is_tree<T>(g: &Graph<T>, s: u32) -> bool {
    part(g, s).len() == part_edges(g, s).len() + 1
}

/// The graph has no cycle, and each of its parts has one edge fewer than nodes.
pub open spec fn forest<T>(g: &Graph<T>) -> bool {
    !has_cycle(g.arcs()) && forall|s: u32| g.nodes().contains_key(s) ==> #[trigger] part_is_tree(g, s)
}

/// The kind of the graph: a tree, else a forest, else neither.
pub open spec fn kind_of<T>(g: &Graph<T>) -> GraphType {
    if tree(g) {
        GraphType::Tree
    } else if forest(g) {
        GraphType::Forest
    } else {
        GraphType::Default
    }
}

/// A node lies in the same part as every node of its part.
pub proof fn lemma_same_part<T>(g: &Graph<T>, s: u32, v: u32)
    requires
        part(g, s).contains(v),
    ensures
        part(g, v) == part(g, s),
        part_edges(g, v) == part_edges(g, s),
        part_is_tree(g, v) == part_is_tree(g, s),
{
    let r = beside(g);
    assert forall|x: u32, y: u32| #[trigger] r(x, y) implies r(y, x) by {}
    lemma_reach_symmetric(r, s, v);
    assert forall|w: u32| part(g, v).contains(w) <==> part(g, s).contains(w) by {
        if reachable(r, v, w) {
            lemma_reach_trans(r, s, v, w);
        }
        if reachable(r, s, w) {
            lemma_reach_trans(r, v, s, w);
        }
    }
    assert(part(g, v) =~= part(g, s));
    assert(part_edges(g, v) =~= part_edges(g, s));
}

/// The number of edges that start at a node of `comp` and lead to a node of the graph.
fn count_part_edges<T>(graph: &Graph<T>, comp: &Vec<u32>) -> (n: u128)
    requires
        graph.wf(),
        comp@.no_duplicates(),
        forall|i: int| 0 <= i < comp@.len() ==> graph.nodes().contains_key(#[trigger] comp@[i]),
    ensures
        Set::new(
            |e: (u32, u32)| comp@.contains(e.0) && graph.has_edge(e.0, e.1) && graph.nodes().contains_key(e.1),
        ).finite(),
        n == Set::new(
            |e: (u32, u32)| comp@.contains(e.0) && graph.has_edge(e.0, e.1) && graph.nodes().contains_key(e.1),
        ).len(),
        n <= 0x1_0000_0000_0000_0000,
{
    let ghost q: Relation = |x: u32, y: u32| graph.has_edge(x, y) && graph.nodes().contains_key(y);
    let ghost p: Property = |y: u32| graph.nodes().contains_key(y);
    let mut total: u128 = 0;
    let mut i: usize = 0;
    proof {
        lemma_pairs_none(comp@, q);
        lemma_distinct_ids_bound(comp@);
    }
    while i < comp.len()
        invariant
            i <= comp@.len(),
            comp@.len() <= 0x1_0000_0000,
            graph.wf(),
            comp@.no_duplicates(),
            forall|i: int| 0 <= i < comp@.len() ==> graph.nodes().contains_key(#[trigger] comp@[i]),
            q == (|x: u32, y: u32| graph.has_edge(x, y) && graph.nodes().contains_key(y)),
            p == (|y: u32| graph.nodes().contains_key(y)),
            pairs(comp@, i as int, q).finite(),
            total == pairs(comp@, i as int, q).len(),
            total <= i * 0x1_0000_0000,
        decreases comp@.len() - i,
    {
        let u = comp[i];
        proof {
            assert(graph.nodes().contains_key(comp@[i as int]));
            assert(graph.adj().dom().contains(u));
        }
        let o = graph.get_adjacency(&u);
        let a = o.unwrap();
        let ghost edges = a@;
        let ghost targets = targets_of(edges);
        let mut c: u64 = 0;
        let mut j: usize = 0;
        proof {
            lemma_targets_distinct(edges);
            lemma_chosen_none(targets, p);
        }
        while j < a.len()
            invariant
                j <= edges.len(),
                edges == a@,
                targets == targets_of(edges),
                targets.no_duplicates(),
                targets.len() <= 0x1_0000_0000,
                p == (|y: u32| graph.nodes().contains_key(y)),
                chosen(targets, j as int, p).finite(),
                c == chosen(targets, j as int, p).len(),
                c <= j,
            decreases edges.len() - j,
        {
            let v = a.edge(j).node.number;
            proof {
                lemma_chosen_step(targets, j as int, p);
                assert(targets[j as int] == v);
            }
            if graph.get_node(&v).is_some() {
                c += 1;
            }
            j += 1;
        }
        proof {
            lemma_chosen_all(targets, p);
            assert(chosen(targets, targets.len() as int, p) =~= row(u, q)) by {
                assert forall|y: u32| (p(y) && targets.contains(y)) <==> row(u, q).contains(y) by {
                    if targets.contains(y) {
                        let k = choose|k: int| 0 <= k < targets.len() && targets[k] == y;
                        assert(edges[k].target() == y);
                    }
                    if graph.has_edge(u, y) {
                        let k = target_index(edges, y);
                        assert(targets[k] == y);
                    }
                }
            }
            lemma_pairs_step(comp@, i as int, q);
        }
        total = total + c as u128;
        i += 1;
    }
    proof {
        lemma_pairs_all(comp@, q);
        assert(pairs(comp@, comp@.len() as int, q) =~= Set::new(
            |e: (u32, u32)| comp@.contains(e.0) && graph.has_edge(e.0, e.1) && graph.nodes().contains_key(e.1),
        ));
    }
    total
}

/// Whether the graph is a forest: whether it has no cycle and each part of it, taken with
/// edges read both ways, has one edge fewer than nodes.
pub fn is_a_forest<T>(graph: &Graph<T>) -> (b: bool)
    requires
        graph.wf(),
    ensures
        b == forest(graph),
{
    broadcast use group_hash_axioms;

    if has_directed_cycle(graph) {
        return false;
    }
    let links = neighbours(graph);
    let ghost r = beside(graph);
    proof {
        assert(relation(&links) =~= r);
    }
    let ids = graph.node_ids();
    let mut assigned: HashSet<u32> = HashSet::new();
    let mut i: usize = 0;
    while i < ids.len()
        invariant
            i <= ids@.len(),
            graph.wf(),
            links.ready(),
            r == beside(graph),
            relation(&links) == r,
            ids@.to_set() == graph.nodes().dom(),
            forall|v: u32| assigned@.contains(v) ==> #[trigger] part_is_tree(graph, v),
            forall|j: int| 0 <= j < i ==> assigned@.contains(#[trigger] ids@[j]),
        decreases ids@.len() - i,
    {
        let s = ids[i];
        proof {
            assert(ids@.to_set().contains(ids@[i as int]));
        }
        if !assigned.contains(&s) {
            let t = search(&links, s, None);
            let comp = t.nodes();
            proof {
                t.lemma_met();
                assert(comp@.to_set() =~= part(graph, s)) by {
                    assert forall|v: u32| comp@.to_set().contains(v) <==> part(graph, s).contains(v) by {
                        if comp@.contains(v) {
                            assert(t.visited(v));
                        }
                        if reachable(r, s, v) {
                            assert(t.visited(v));
                        }
                    }
                }
                comp@.unique_seq_to_set();
                assert forall|k: int| 0 <= k < comp@.len() implies graph.nodes().contains_key(#[trigger] comp@[k]) by {
                    assert(comp@.contains(comp@[k]));
                    assert(t.visited(comp@[k]));
                    assert(reachable(r, s, comp@[k]));
                    let w = choose|w: Seq<u32>| #[trigger] walk_between(r, w, s, comp@[k]);
                    if w.len() >= 2 {
                        assert(r(w[w.len() - 2], w[w.len() - 2 + 1]));
                    }
                }
            }
            let edges = count_part_edges(graph, comp);
            proof {
                assert(part_edges(graph, s) =~= Set::new(
                    |e: (u32, u32)|
                        comp@.contains(e.0) && graph.has_edge(e.0, e.1) && graph.nodes().contains_key(e.1),
                )) by {
                    assert forall|e: (u32, u32)| comp@.contains(e.0) <==> part(graph, s).contains(e.0) by {
                        assert(comp@.to_set().contains(e.0) <==> comp@.contains(e.0));
                    }
                }
            }
            if comp.len() as u128 != edges + 1 {
                proof {
                    assert(graph.nodes().contains_key(s));
                    assert(part(graph, s).len() == comp@.len());
                    assert(!part_is_tree(graph, s));
                }
                return false;
            }
            proof {
                assert(part(graph, s).len() == comp@.len());
                assert(part_is_tree(graph, s));
            }
            let mut k: usize = 0;
            while k < comp.len()
                invariant
                    k <= comp@.len(),
                    i < ids@.len(),
                    part_is_tree(graph, s),
                    comp@.to_set() == part(graph, s),
                    forall|v: u32| assigned@.contains(v) ==> #[trigger] part_is_tree(graph, v),
                    forall|j: int| 0 <= j < i ==> assigned@.contains(#[trigger] ids@[j]),
                    forall|j: int| 0 <= j < k ==> assigned@.contains(#[trigger] comp@[j]),
                decreases comp@.len() - k,
            {
                let v = comp[k];
                proof {
                    assert(comp@.to_set().contains(comp@[k as int]));
                    lemma_same_part(graph, s, v);
                }
                assigned.insert(v);
                k += 1;
            }
            proof {
                assert(comp@.to_set().contains(s)) by {
                    crate::paths::lemma_reach_self(r, s);
                }
                let m = choose|m: int| 0 <= m < comp@.len() && comp@[m] == s;
                assert(assigned@.contains(comp@[m]));
            }
        }
        i += 1;
    }
    proof {
        assert forall|s: u32| graph.nodes().contains_key(s) implies #[trigger] part_is_tree(graph, s) by {
            assert(ids@.to_set().contains(s));
            let j = choose|j: int| 0 <= j < ids@.len() && ids@[j] == s;
            assert(assigned@.contains(ids@[j]));
        }
    }
    true
}

/// Tells whether a directed graph is a tree, or a forest, or neither.
///
/// `GraphMustBeDirected` where the graph is undirected.
pub fn task_5_18<T>(graph: &Graph<T>) -> (r: Result<GraphType, GraphError>)
    requires
        graph.wf(),
    ensures
        r is Ok <==> graph.directed(),
        r matches Err(e) ==> e.spec_kind() == GraphKindError::GraphMustBeDirected,
        r matches Ok(t) ==> t == kind_of(graph),
{
    if !graph.get_is_directed() {
        return Err(GraphError::new(GraphKindError::GraphMustBeDirected, "the graph must be directed"));
    }
    if is_a_tree(graph) {
        return Ok(GraphType::Tree);
    }
    if is_a_forest(graph) {
        return Ok(GraphType::Forest);
    }
    Ok(GraphType::Default)
}

} // verus!
