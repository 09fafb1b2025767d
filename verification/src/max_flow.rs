//! A maximum-flow engine that runs one augmenting path at a time.
//!
//! The engine derives capacities from a directed graph once, and then keeps the flow, the
//! flow that has reached the sink so far, and the number of steps between calls. Each step
//! searches the residual network breadth-first and pushes the bottleneck of the path found.
//!
//! A step may go along an edge that has capacity left, and back along an edge that carries
//! flow, which takes that flow back. The room from a node to another is the capacity of the
//! pair less the flow on it, the flow back being the negative of the flow forth. When no
//! path of pairs with room leads from the source to the sink, the flow is a largest flow:
//! the nodes that the source still reaches are one side of a cut whose capacity is full.

use std::collections::HashMap;
use vstd::prelude::*;
use vstd::std_specs::hash::group_hash_axioms;
use crate::adjacency::{has_target, lemma_target_index_unique, target_index};
use crate::classify::Links;
use crate::error::{GraphError, GraphKindError};
use crate::graph::{arc, arc_edge, Graph};
use crate::paths::{lemma_distinct_ids_bound, lemma_walk_mono, reachable, walk_between, Relation};
use crate::search::{relation, search, targets_of, trace, way, Arcs, Targets};
use crate::flows::{leaving, lemma_full_cut_is_maximum, max_flow_value, row, valid_flow, value, Flow, Side};
use crate::sums::{
    all_ids, lemma_total_point, lemma_total_sum, lemma_total_two_points, lemma_total_zero, total, Weights,
};

verus! {

/// The key under which the ordered pair `(u, v)` stands in the capacity and flow tables.
pub open spec fn pair_key(u: u32, v: u32) -> u64 {
    (u as u64 * 0x1_0000_0000 + v as u64) as u64
}

/// Different pairs have different keys.
pub proof fn lemma_pair_key_injective(a: u32, b: u32, c: u32, d: u32)
    ensures
        pair_key(a, b) == pair_key(c, d) <==> a == c && b == d,
        pair_key(a, b) == a * 0x1_0000_0000 + b,
{
}

/// Computes `pair_key`.
pub fn key_of(u: u32, v: u32) -> (k: u64)
    ensures
        k == pair_key(u, v),
{
    (u as u64) * 0x1_0000_0000u64 + (v as u64)
}

/// The capacity that the table `m` gives to `(u, v)`: zero where it has no entry.
pub open spec fn capacity_at(m: Map<u64, u32>, u: u32, v: u32) -> int {
    if m.contains_key(pair_key(u, v)) {
        m[pair_key(u, v)] as int
    } else {
        0
    }
}

/// The flow that the table `m` gives to `(u, v)`: zero where it has no entry.
pub open spec fn flow_at(m: Map<u64, i64>, u: u32, v: u32) -> int {
    if m.contains_key(pair_key(u, v)) {
        m[pair_key(u, v)] as int
    } else {
        0
    }
}

/// The residual capacity of a pair with capacity `c` and flow `f`: `f` itself on a pair
/// without capacity that carries flow, else what `c` leaves once the flow forward is taken.
/// It tells how much capacity of an edge is unused; the search goes by `room_of`.
pub open spec fn residual_of(c: int, f: int) -> int {
    if c == 0 && f > 0 {
        f
    } else {
        let used = if f > 0 { f } else { 0 };
        if used >= c { 0 } else { c - used }
    }
}

/// The room on a pair with capacity `c` and flow `f`: what can still be pushed along it,
/// be it over capacity that is left or by taking back flow that runs the other way.
pub open spec fn room_of(c: int, f: int) -> int {
    c - f
}

/// The capacities of the table `m` as a function.
pub open spec fn capacity_fn(m: Map<u64, u32>) -> Flow {
    |u: u32, v: u32| capacity_at(m, u, v)
}

/// The flows of the table `m` as a function.
pub open spec fn flow_fn(m: Map<u64, i64>) -> Flow {
    |u: u32, v: u32| flow_at(m, u, v)
}

/// The capacities that a graph gives: the weight of each edge, and zero where there is none.
pub open spec fn capacities_of<T>(g: &Graph<T>) -> Flow {
    |u: u32, v: u32| if g.has_edge(u, v) { g.weight(u, v) as int } else { 0 }
}

/// The residual capacity from `from` to `to` under the given capacities and flows.
pub fn residual(capacity: &HashMap<u64, u32>, flow: &HashMap<u64, i64>, from: u32, to: u32) -> (r: u64)
    ensures
        r == residual_of(capacity_at(capacity@, from, to), flow_at(flow@, from, to)),
{
    broadcast use group_hash_axioms;

    let k = key_of(from, to);
    let c: u32 = match capacity.get(&k) {
        Some(c) => *c,
        None => 0,
    };
    let f: i64 = match flow.get(&k) {
        Some(f) => *f,
        None => 0,
    };
    if c == 0 && f > 0 {
        f as u64
    } else {
        let used: u64 = if f > 0 { f as u64 } else { 0 };
        if used >= c as u64 { 0 } else { c as u64 - used }
    }
}

/// The flow that the table `m` gives from `s` to the nodes of `targets`, added up.
pub open spec fn sum_flow(m: Map<u64, i64>, s: u32, targets: Seq<u32>) -> int
    decreases targets.len(),
{
    if targets.len() == 0 {
        0
    } else {
        sum_flow(m, s, targets.drop_last()) + flow_at(m, s, targets.last())
    }
}

/// The capacity that the table `m` gives from `s` to the nodes of `targets`, added up.
pub open spec fn sum_capacity(m: Map<u64, u32>, s: u32, targets: Seq<u32>) -> int
    decreases targets.len(),
{
    if targets.len() == 0 {
        0
    } else {
        sum_capacity(m, s, targets.drop_last()) + capacity_at(m, s, targets.last())
    }
}

/// The pair `(x, y)` is one of the first `n` arcs of the path `p`.
pub open spec fn on_prefix(p: Seq<u32>, n: int, x: u32, y: u32) -> bool {
    exists|i: int| 0 <= i < n && i < p.len() - 1 && #[trigger] p[i] == x && p[i + 1] == y
}

/// The pair `(x, y)` is an arc of the path `p`.
pub open spec fn on_path(p: Seq<u32>, x: u32, y: u32) -> bool {
    on_prefix(p, p.len() - 1, x, y)
}

/// Of the nodes of `list`, those to which there is room from `u`, in order.
pub open spec fn open_arcs(
    list: Seq<u32>,
    u: u32,
    capacity: spec_fn(u32, u32) -> int,
    flow: spec_fn(u32, u32) -> int,
) -> Seq<u32>
    decreases list.len(),
{
    if list.len() == 0 {
        Seq::empty()
    } else {
        let rest = open_arcs(list.drop_last(), u, capacity, flow);
        if room_of(capacity(u, list.last()), flow(u, list.last())) > 0 {
            rest.push(list.last())
        } else {
            rest
        }
    }
}

/// The open arcs of a list are its members to which there is room.
pub proof fn lemma_open_arcs(
    list: Seq<u32>,
    u: u32,
    capacity: spec_fn(u32, u32) -> int,
    flow: spec_fn(u32, u32) -> int,
    v: u32,
)
    ensures
        open_arcs(list, u, capacity, flow).contains(v) <==> list.contains(v) && room_of(
            capacity(u, v),
            flow(u, v),
        ) > 0,
    decreases list.len(),
{
    if list.len() > 0 {
        let rest = list.drop_last();
        let kept = open_arcs(rest, u, capacity, flow);
        let all = open_arcs(list, u, capacity, flow);
        lemma_open_arcs(rest, u, capacity, flow, v);
        if rest.contains(v) {
            let i = choose|i: int| 0 <= i < rest.len() && rest[i] == v;
            assert(list[i] == v);
        }
        if list.contains(v) && list.last() != v {
            let i = choose|i: int| 0 <= i < list.len() && list[i] == v;
            assert(rest[i] == v);
        }
        if list.last() == v {
            assert(list[list.len() - 1] == v);
        }
        if room_of(capacity(u, list.last()), flow(u, list.last())) > 0 {
            assert(all == kept.push(list.last()));
            if kept.contains(v) {
                let i = choose|i: int| 0 <= i < kept.len() && kept[i] == v;
                assert(all[i] == v);
            }
            if all.contains(v) {
                let i = choose|i: int| 0 <= i < all.len() && all[i] == v;
                if i < kept.len() {
                    assert(kept[i] == v);
                }
            }
            if list.last() == v {
                assert(all[all.len() - 1] == v);
            }
        }
    }
}

/// The engine as a value: the network, the flow, and what the steps so far have left.
#[verifier::ext_equal]
pub struct Net {
    /// For each node, the nodes to which it has an edge, in the order of its adjacency.
    pub succ: Map<u32, Seq<u32>>,
    /// For each node, the nodes from which an edge leads to it.
    pub back: Targets,
    pub capacity: spec_fn(u32, u32) -> int,
    pub flow: spec_fn(u32, u32) -> int,
    pub source: u32,
    pub sink: u32,
    pub accumulated: int,
    pub steps: int,
    pub path: Option<Seq<u32>>,
    pub terminal: bool,
}

/// The flow from `s` to the nodes of `targets`, added up.
pub open spec fn flow_to(flow: spec_fn(u32, u32) -> int, s: u32, targets: Seq<u32>) -> int
    decreases targets.len(),
{
    if targets.len() == 0 {
        0
    } else {
        flow_to(flow, s, targets.drop_last()) + flow(s, targets.last())
    }
}

/// As many steps as no run can need: more than any flow can accumulate.
pub open spec fn enough() -> nat {
    0x1_0000_0000_0000_0000
}

impl Net {
    /// The residual capacity from `u` to `v`.
    pub open spec fn residual(self, u: u32, v: u32) -> int {
        residual_of((self.capacity)(u, v), (self.flow)(u, v))
    }

    /// The room from `u` to `v`: the capacity of the pair less the flow on it.
    pub open spec fn room(self, u: u32, v: u32) -> int {
        room_of((self.capacity)(u, v), (self.flow)(u, v))
    }

    /// The nodes to which `u` has an edge.
    pub open spec fn list(self, u: u32) -> Seq<u32> {
        if self.succ.contains_key(u) {
            self.succ[u]
        } else {
            Seq::empty()
        }
    }

    /// The residual network: for each node, the nodes to which there is room, first those
    /// to which it has an edge, then those from which an edge leads to it.
    pub open spec fn targets(self) -> Targets {
        |u: u32|
            open_arcs(self.list(u), u, self.capacity, self.flow) + open_arcs(
                (self.back)(u),
                u,
                self.capacity,
                self.flow,
            )
    }

    /// The path that a breadth-first search of the residual network finds from the source
    /// to the sink, or `None` where the sink is the source or is not met.
    pub open spec fn find(self) -> Option<Seq<u32>> {
        if self.source == self.sink {
            None
        } else {
            let t = trace(self.targets(), self.source, Some(self.sink));
            if t.order.contains(self.sink) {
                Some(way(t, self.sink))
            } else {
                None
            }
        }
    }

    /// The least room among the first `k` arcs of `p`.
    pub open spec fn least(self, p: Seq<u32>, k: int) -> int
        decreases k,
    {
        if k <= 1 {
            self.room(p[0], p[1])
        } else {
            let before = self.least(p, k - 1);
            let here = self.room(p[k - 1], p[k]);
            if here < before {
                here
            } else {
                before
            }
        }
    }

    /// The bottleneck of `p`: the least room among its arcs.
    pub open spec fn bottleneck(self, p: Seq<u32>) -> int {
        self.least(p, p.len() - 1)
    }

    /// The engine after one step: where a path is found, its bottleneck is pushed along it;
    /// where none is found, the engine is terminal.
    pub open spec fn step(self) -> Net {
        match self.find() {
            Some(p) => {
                let b = self.bottleneck(p);
                Net {
                    flow: |x: u32, y: u32| (self.flow)(x, y) + delta(p, b, x, y),
                    accumulated: self.accumulated + b,
                    steps: self.steps + 1,
                    path: Some(p),
                    terminal: false,
                    ..self
                }
            },
            None => Net { path: None, terminal: true, ..self },
        }
    }

    /// The engine after steps up to the first that finds no path, or after `fuel` steps.
    pub open spec fn run(self, fuel: nat) -> Net
        decreases fuel,
    {
        if fuel == 0 {
            self
        } else if self.find() is None {
            self.step()
        } else {
            self.step().run((fuel - 1) as nat)
        }
    }

    /// The engine without flow: nothing accumulated, no step made, the network as it is.
    pub open spec fn cleared(self) -> Net {
        Net {
            flow: |x: u32, y: u32| 0int,
            accumulated: 0,
            steps: 0,
            path: None,
            terminal: false,
            ..self
        }
    }

    /// The flow is a largest flow: it is a flow within the capacities, the accumulated flow
    /// is its value, some cut between the source and the sink has that value as its
    /// capacity, and no flow within the capacities has a larger value.
    pub open spec fn maximal(self) -> bool {
        &&& valid_flow(self.capacity, self.flow, self.source, self.sink)
        &&& value(self.flow, self.source) == self.accumulated
        &&& max_flow_value(self.capacity, self.source, self.sink, self.accumulated)
    }

    /// The flow that leaves the source over its edges.
    pub open spec fn leaving(self) -> int {
        flow_to(self.flow, self.source, self.list(self.source))
    }

    /// `other` has the network of `self`: the same edges and capacities, source and sink.
    pub open spec fn same_network(self, other: Net) -> bool {
        &&& other.succ == self.succ
        &&& other.back == self.back
        &&& other.capacity == self.capacity
        &&& other.source == self.source
        &&& other.sink == self.sink
    }
}

/// Steps do not change the network.
pub proof fn lemma_run_keeps_network(n: Net, fuel: nat)
    ensures
        n.same_network(n.step()),
        n.same_network(n.run(fuel)),
    decreases fuel,
{
    if fuel > 0 && n.find() is Some {
        lemma_run_keeps_network(n.step(), (fuel - 1) as nat);
    }
}

/// After a reset the engine runs to the same end as before: an engine that is cleared,
/// however far it has run, is the engine as it was built, and so runs to the same flow.
pub proof fn lemma_reset_repeats(built: Net, fuel: nat)
    requires
        built == built.cleared(),
    ensures
        built.run(fuel).cleared() == built,
        built.run(fuel).cleared().run(enough()) == built.run(enough()),
        built.run(enough()).cleared().run(enough()).accumulated == built.run(enough()).accumulated,
{
    lemma_run_keeps_network(built, fuel);
    lemma_run_keeps_network(built, enough());
    assert(built.run(fuel).cleared() =~= built.cleared());
    assert(built.run(enough()).cleared() =~= built.cleared());
}

/// The state of a maximum-flow computation.
#[derive(Debug)]
pub struct MaxFlow {
    succ: HashMap<u32, Vec<u32>>,
    pred: Links,
    capacity: HashMap<u64, u32>,
    flow: HashMap<u64, i64>,
    source: u32,
    sink: u32,
    accumulated_flow: u64,
    step_count: u64,
    current_path: Option<Vec<u32>>,
    terminal: bool,
}

impl View for MaxFlow {
    type V = Net;

    closed spec fn view(&self) -> Net {
        Net {
            succ: Map::new(|u: u32| self.succ@.contains_key(u), |u: u32| self.succ@[u]@),
            back: targets_of(&self.pred),
            capacity: capacity_fn(self.capacity@),
            flow: flow_fn(self.flow@),
            source: self.source,
            sink: self.sink,
            accumulated: self.accumulated_flow as int,
            steps: self.step_count as int,
            path: match self.current_path {
                Some(p) => Some(p@),
                None => None,
            },
            terminal: self.terminal,
        }
    }
}

impl MaxFlow {
    /// What the engine holds is what its view holds.
    pub proof fn lemma_view(&self)
        ensures
            self@.source == self.source(),
            self@.sink == self.sink(),
            self@.accumulated == self.accumulated(),
            self@.steps == self.steps(),
            self@.path == self.path(),
            self@.terminal == self.is_terminal(),
            forall|u: u32, v: u32| #[trigger] (self@.capacity)(u, v) == self.capacity(u, v),
            forall|u: u32, v: u32| #[trigger] (self@.flow)(u, v) == self.flow(u, v),
            forall|u: u32, v: u32| #[trigger] self@.residual(u, v) == self.residual(u, v),
            forall|u: u32, v: u32| #[trigger] self@.room(u, v) == self.room(u, v),
    {
    }

    /// The capacity from `u` to `v`: the weight of the edge, or zero where there is none.
    pub closed spec fn capacity(&self, u: u32, v: u32) -> int {
        capacity_at(self.capacity@, u, v)
    }

    /// The flow from `u` to `v`. The flow from `v` to `u` is its negative.
    pub closed spec fn flow(&self, u: u32, v: u32) -> int {
        flow_at(self.flow@, u, v)
    }

    /// The residual capacity from `u` to `v`: what the capacity of the pair leaves.
    pub open spec fn residual(&self, u: u32, v: u32) -> int {
        residual_of(self.capacity(u, v), self.flow(u, v))
    }

    /// The room from `u` to `v`: the capacity of the pair less the flow on it, so that there
    /// is room wherever capacity is left and wherever flow runs the other way.
    pub open spec fn room(&self, u: u32, v: u32) -> int {
        room_of(self.capacity(u, v), self.flow(u, v))
    }

    /// The node from which the flow starts.
    pub closed spec fn source(&self) -> u32 {
        self.source
    }

    /// The node at which the flow arrives.
    pub closed spec fn sink(&self) -> u32 {
        self.sink
    }

    /// The flow that the steps so far have brought to the sink.
    pub closed spec fn accumulated(&self) -> int {
        self.accumulated_flow as int
    }

    /// The number of steps that found a path.
    pub closed spec fn steps(&self) -> int {
        self.step_count as int
    }

    /// The path of the last step, if it found one.
    pub closed spec fn path(&self) -> Option<Seq<u32>> {
        match self.current_path {
            Some(p) => Some(p@),
            None => None,
        }
    }

    /// The last step found no path.
    pub closed spec fn is_terminal(&self) -> bool {
        self.terminal
    }

    /// The nodes to which the source has an edge.
    pub closed spec fn source_targets(&self) -> Seq<u32> {
        if self.succ@.contains_key(self.source) {
            self.succ@[self.source]@
        } else {
            Seq::empty()
        }
    }

    /// The capacity of all edges that leave the source: no flow can be larger.
    pub closed spec fn source_capacity(&self) -> int {
        sum_capacity(self.capacity@, self.source, self.source_targets())
    }

    /// The engine is consistent: the flow respects every capacity, the flow back is the
    /// negative of the flow forth, as much leaves every node but the source and the sink as
    /// enters it, and the accumulated flow is what leaves the source.
    pub closed spec fn wf(&self) -> bool {
        &&& forall|u: u32| #[trigger] self.succ@.contains_key(u) ==> self.succ@[u]@.no_duplicates()
        &&& forall|u: u32, v: u32|
            self.capacity@.contains_key(#[trigger] pair_key(u, v)) <==> self.succ@.contains_key(u)
                && self.succ@[u]@.contains(v)
        &&& forall|u: u32, v: u32| #[trigger] flow_at(self.flow@, u, v) <= capacity_at(self.capacity@, u, v)
        &&& forall|u: u32, v: u32| #[trigger] flow_at(self.flow@, u, v) == -flow_at(self.flow@, v, u)
        &&& self.accumulated_flow == sum_flow(self.flow@, self.source, self.source_targets())
        &&& self.step_count <= self.accumulated_flow
        &&& forall|u: u32, v: u32| #[trigger]
            self.pred.joined(u, v) <==> self.capacity@.contains_key(pair_key(v, u))
        &&& forall|v: u32| #[trigger] flow_at(self.flow@, self.source, v) >= 0
        &&& forall|u: u32|
            u != self.source && u != self.sink ==> #[trigger] leaving(flow_fn(self.flow@), u) == 0
        &&& leaving(flow_fn(self.flow@), self.source) == self.accumulated_flow
    }

    /// The capacities are the weights of the edges of `g`.
    pub open spec fn models<T>(&self, g: &Graph<T>) -> bool {
        forall|u: u32, v: u32| #[trigger]
            self.capacity(u, v) == if g.has_edge(u, v) { g.weight(u, v) as int } else { 0 }
    }

    /// No flow anywhere, nothing accumulated, no step made.
    pub open spec fn fresh(&self) -> bool {
        &&& forall|u: u32, v: u32| #[trigger] self.flow(u, v) == 0
        &&& self.accumulated() == 0
        &&& self.steps() == 0
        &&& self.path() is None
        &&& !self.is_terminal()
    }
}

proof fn lemma_flow_to(m: Map<u64, i64>, flow: spec_fn(u32, u32) -> int, s: u32, targets: Seq<u32>)
    requires
        forall|u: u32, v: u32| #[trigger] flow(u, v) == flow_at(m, u, v),
    ensures
        flow_to(flow, s, targets) == sum_flow(m, s, targets),
    decreases targets.len(),
{
    if targets.len() > 0 {
        lemma_flow_to(m, flow, s, targets.drop_last());
        assert(flow(s, targets.last()) == flow_at(m, s, targets.last()));
    }
}

proof fn lemma_sum_flow_zero(m: Map<u64, i64>, s: u32, targets: Seq<u32>)
    requires
        forall|u: u32, v: u32| #[trigger] flow_at(m, u, v) == 0,
    ensures
        sum_flow(m, s, targets) == 0,
    decreases targets.len(),
{
    if targets.len() > 0 {
        lemma_sum_flow_zero(m, s, targets.drop_last());
        assert(flow_at(m, s, targets.last()) == 0);
    }
}

/// Derives the engine from a directed graph: the capacity of a pair is the weight of its
/// edge, and no flow runs yet.
///
/// `GraphMustBeDirected` where the graph is undirected.
pub fn build_capacity_and_flow<T>(graph: &Graph<T>, source: u32, sink: u32) -> (r: Result<MaxFlow, GraphError>)
    requires
        graph.wf(),
    ensures
        r is Ok <==> graph.directed(),
        r matches Err(e) ==> e.spec_kind() == GraphKindError::GraphMustBeDirected,
        r matches Ok(m) ==> {
            &&& m.wf()
            &&& m@.capacity == capacities_of(graph)
            &&& m@ == m@.cleared()
            &&& m@.source == source
            &&& m@.sink == sink
            &&& m.source() == source
            &&& m.sink() == sink
            &&& m.models(graph)
            &&& m.fresh()
        },
{
    broadcast use group_hash_axioms;

    if !graph.get_is_directed() {
        return Err(GraphError::new(GraphKindError::GraphMustBeDirected, "the network must be a directed graph"));
    }
    let ghost adj = graph.adj();
    let mut succ: HashMap<u32, Vec<u32>> = HashMap::new();
    let mut pred = Links::new();
    let mut capacity: HashMap<u64, u32> = HashMap::new();
    let ids = graph.node_ids();
    let mut i: usize = 0;
    while i < ids.len()
        invariant
            i <= ids@.len(),
            graph.wf(),
            adj == graph.adj(),
            ids@.no_duplicates(),
            ids@.to_set() == adj.dom(),
            forall|u: u32| #[trigger] succ@.contains_key(u) <==> exists|a: int| 0 <= a < i && #[trigger] ids@[a] == u,
            forall|u: u32| #[trigger]
                succ@.contains_key(u) ==> succ@[u]@.no_duplicates() && forall|v: u32| #[trigger]
                    succ@[u]@.contains(v) <==> has_target(adj[u], v),
            forall|u: u32| #[trigger] succ@.contains_key(u) ==> adj.contains_key(u) && succ@[u]@ == Seq::new(
                adj[u].len(),
                |i: int| adj[u][i].target(),
            ),
            forall|u: u32, v: u32|
                capacity@.contains_key(#[trigger] pair_key(u, v)) <==> succ@.contains_key(u) && has_target(
                    adj[u],
                    v,
                ),
            forall|u: u32, v: u32|
                capacity@.contains_key(#[trigger] pair_key(u, v)) ==> capacity@[pair_key(u, v)] == arc_edge(
                    adj,
                    u,
                    v,
                ).weight,
            forall|u: u32, v: u32| #[trigger] pred.joined(u, v) <==> capacity@.contains_key(pair_key(v, u)),
        decreases ids@.len() - i,
    {
        let id = ids[i];
        proof {
            assert(ids@.to_set().contains(ids@[i as int]));
            assert(!succ@.contains_key(id)) by {
                if succ@.contains_key(id) {
                    let a = choose|a: int| 0 <= a < i && #[trigger] ids@[a] == id;
                    assert(ids@[a] == ids@[i as int]);
                }
            }
        }
        let o = graph.get_adjacency(&id);
        let a = o.unwrap();
        let targets = a.targets();
        let ghost edges = a@;
        let ghost cap0 = capacity@;
        let mut j: usize = 0;
        while j < a.len()
            invariant
                j <= edges.len(),
                edges == a@,
                edges == adj[id],
                crate::adjacency::distinct_targets(edges),
                forall|u: u32, v: u32|
                    capacity@.contains_key(#[trigger] pair_key(u, v)) <==> cap0.contains_key(pair_key(u, v)) || (u
                        == id && exists|b: int| 0 <= b < j && (#[trigger] edges[b]).target() == v),
                forall|u: u32, v: u32|
                    cap0.contains_key(#[trigger] pair_key(u, v)) ==> capacity@[pair_key(u, v)] == cap0[pair_key(
                        u,
                        v,
                    )],
                forall|u: u32, v: u32| cap0.contains_key(#[trigger] pair_key(u, v)) ==> u != id,
                forall|b: int|
                    0 <= b < j ==> capacity@[pair_key(id, (#[trigger] edges[b]).target())] == edges[b].weight,
                forall|u: u32, v: u32| #[trigger] pred.joined(u, v) <==> capacity@.contains_key(pair_key(v, u)),
            decreases edges.len() - j,
        {
            let e = a.edge(j);
            let ghost before = capacity@;
            let ghost pred0 = pred;
            capacity.insert(key_of(id, e.node.number), e.weight);
            pred.join(e.node.number, id);
            proof {
                let t = edges[j as int].target();
                assert forall|u: u32, v: u32| #[trigger] pred.joined(u, v) <==> capacity@.contains_key(
                    pair_key(v, u),
                ) by {
                    lemma_pair_key_injective(v, u, id, t);
                    assert(pred0.joined(u, v) <==> before.contains_key(pair_key(v, u)));
                }
                assert forall|u: u32, v: u32|
                    capacity@.contains_key(#[trigger] pair_key(u, v)) <==> cap0.contains_key(pair_key(u, v)) || (u
                        == id && exists|b: int| 0 <= b < j + 1 && (#[trigger] edges[b]).target() == v) by {
                    lemma_pair_key_injective(u, v, id, t);
                    if u == id && (exists|b: int| 0 <= b < j + 1 && (#[trigger] edges[b]).target() == v) {
                        let b = choose|b: int| 0 <= b < j + 1 && (#[trigger] edges[b]).target() == v;
                        if b < j {
                            assert(before.contains_key(pair_key(u, v)));
                        }
                    }
                    if before.contains_key(pair_key(u, v)) && !cap0.contains_key(pair_key(u, v)) {
                        let b = choose|b: int| 0 <= b < j && (#[trigger] edges[b]).target() == v;
                        assert(0 <= b < j + 1);
                    }
                    if pair_key(u, v) == pair_key(id, t) {
                        assert(edges[j as int].target() == v);
                    }
                }
                assert forall|u: u32, v: u32| cap0.contains_key(#[trigger] pair_key(u, v)) implies capacity@[pair_key(
                    u,
                    v,
                )] == cap0[pair_key(u, v)] by {
                    lemma_pair_key_injective(u, v, id, t);
                }
                assert forall|b: int| 0 <= b < j + 1 implies capacity@[pair_key(
                    id,
                    (#[trigger] edges[b]).target(),
                )] == edges[b].weight by {
                    lemma_pair_key_injective(id, edges[b].target(), id, t);
                    if b < j {
                        assert(edges[b].target() != edges[j as int].target());
                    }
                }
            }
            j += 1;
        }
        let ghost succ0 = succ@;
        succ.insert(id, targets);
        proof {
            assert(targets@ =~= Seq::new(adj[id].len(), |i: int| adj[id][i].target()));
            assert forall|u: u32| #[trigger] succ@.contains_key(u) <==> exists|a: int|
                0 <= a < i + 1 && #[trigger] ids@[a] == u by {
                if succ0.contains_key(u) {
                    let a = choose|a: int| 0 <= a < i && #[trigger] ids@[a] == u;
                    assert(0 <= a < i + 1);
                }
                if exists|a: int| 0 <= a < i + 1 && #[trigger] ids@[a] == u {
                    let a = choose|a: int| 0 <= a < i + 1 && #[trigger] ids@[a] == u;
                    if a < i {
                        assert(succ0.contains_key(u));
                    }
                }
            }
            assert(targets@.no_duplicates()) by {
                assert forall|x: int, y: int| 0 <= x < targets@.len() && 0 <= y < targets@.len() && x != y implies targets@[x]
                    != targets@[y] by {
                    if x < y {
                        assert(edges[x].target() != edges[y].target());
                    } else {
                        assert(edges[y].target() != edges[x].target());
                    }
                }
            }
            assert forall|v: u32| #[trigger] targets@.contains(v) <==> has_target(edges, v) by {
                if targets@.contains(v) {
                    let x = choose|x: int| 0 <= x < targets@.len() && targets@[x] == v;
                    assert(edges[x].target() == v);
                }
                if has_target(edges, v) {
                    let x = target_index(edges, v);
                    assert(targets@[x] == v);
                }
            }
            assert forall|u: u32, v: u32|
                capacity@.contains_key(#[trigger] pair_key(u, v)) <==> succ@.contains_key(u) && has_target(
                    adj[u],
                    v,
                ) by {
                if u == id && has_target(edges, v) {
                    let x = target_index(edges, v);
                    assert(edges[x].target() == v);
                }
            }
            assert forall|u: u32, v: u32| capacity@.contains_key(#[trigger] pair_key(u, v)) implies capacity@[pair_key(
                u,
                v,
            )] == arc_edge(adj, u, v).weight by {
                if !cap0.contains_key(pair_key(u, v)) {
                    let b = choose|b: int| 0 <= b < edges.len() && (#[trigger] edges[b]).target() == v;
                    lemma_target_index_unique(edges, b);
                }
            }
        }
        i += 1;
    }
    let m = MaxFlow {
        succ,
        pred,
        capacity,
        flow: HashMap::new(),
        source,
        sink,
        accumulated_flow: 0,
        step_count: 0,
        current_path: None,
        terminal: false,
    };
    proof {
        assert forall|u: u32, v: u32| #[trigger] flow_at(m.flow@, u, v) == 0 by {}
        lemma_sum_flow_zero(m.flow@, source, m.source_targets());
        assert forall|u: u32| adj.contains_key(u) implies #[trigger] m.succ@.contains_key(u) by {
            assert(ids@.to_set().contains(u));
            let a = choose|a: int| 0 <= a < ids@.len() && ids@[a] == u;
            assert(ids@[a] == u);
        }
        assert forall|u: u32| #[trigger] m.succ@.contains_key(u) implies adj.contains_key(u) by {
            let a = choose|a: int| 0 <= a < ids@.len() && #[trigger] ids@[a] == u;
            assert(ids@.to_set().contains(ids@[a]));
        }
        assert forall|u: u32, v: u32| #[trigger]
            m.capacity(u, v) == if graph.has_edge(u, v) { graph.weight(u, v) as int } else { 0 } by {
            assert(m.capacity@.contains_key(pair_key(u, v)) <==> m.succ@.contains_key(u) && has_target(adj[u], v));
            if graph.has_edge(u, v) {
                assert(arc(adj, u, v));
                assert(m.succ@.contains_key(u));
            }
        }
        assert forall|u: u32, v: u32| #[trigger] flow_at(m.flow@, u, v) <= capacity_at(m.capacity@, u, v) by {}
        assert forall|u: u32, v: u32|
            m.capacity@.contains_key(#[trigger] pair_key(u, v)) <==> m.succ@.contains_key(u) && m.succ@[u]@.contains(
                v,
            ) by {}
        assert(m@.capacity =~= capacities_of(graph)) by {
            assert forall|u: u32, v: u32| #[trigger] (m@.capacity)(u, v) == capacities_of(graph)(u, v) by {
                assert(m.capacity(u, v) == if graph.has_edge(u, v) { graph.weight(u, v) as int } else { 0 });
            }
        }
        assert(m@ =~= m@.cleared());
        assert forall|u: u32| #[trigger] leaving(flow_fn(m.flow@), u) == 0 by {
            lemma_total_zero(row(flow_fn(m.flow@), u), all_ids());
        }
    }
    Ok(m)
}


/// What a push of `b` along the first `n` arcs of `p` adds to the flow of `(x, y)`: `b` where
/// the pair is one of those arcs, `-b` where its reverse is.
pub open spec fn delta_prefix(p: Seq<u32>, n: int, b: int, x: u32, y: u32) -> int {
    (if on_prefix(p, n, x, y) { b } else { 0 }) - (if on_prefix(p, n, y, x) { b } else { 0 })
}

/// What a push of `b` along `p` adds to the flow of `(x, y)`.
pub open spec fn delta(p: Seq<u32>, b: int, x: u32, y: u32) -> int {
    delta_prefix(p, p.len() - 1, b, x, y)
}

/// On a path without repetition each arc stands once, and never beside its reverse.
proof fn lemma_prefix_step(p: Seq<u32>, i: int)
    requires
        p.no_duplicates(),
        0 <= i < p.len() - 1,
    ensures
        p[i] != p[i + 1],
        forall|a: u32, b: u32|
            on_prefix(p, i + 1, a, b) <==> on_prefix(p, i, a, b) || (a == p[i] && b == p[i + 1]),
        !on_prefix(p, i, p[i], p[i + 1]),
        forall|n: int| !(#[trigger] on_prefix(p, n, p[i + 1], p[i])),
{
    assert forall|a: u32, b: u32|
        on_prefix(p, i + 1, a, b) <==> on_prefix(p, i, a, b) || (a == p[i] && b == p[i + 1]) by {
        if on_prefix(p, i + 1, a, b) {
            let k = choose|k: int| 0 <= k < i + 1 && k < p.len() - 1 && #[trigger] p[k] == a && p[k + 1] == b;
            if k < i {
                assert(on_prefix(p, i, a, b));
            }
        }
        if on_prefix(p, i, a, b) {
            let k = choose|k: int| 0 <= k < i && k < p.len() - 1 && #[trigger] p[k] == a && p[k + 1] == b;
            assert(0 <= k < i + 1 && p[k] == a && p[k + 1] == b);
        }
        if a == p[i] && b == p[i + 1] {
            assert(0 <= i < i + 1 && p[i] == a && p[i + 1] == b);
        }
    }
    if on_prefix(p, i, p[i], p[i + 1]) {
        let k = choose|k: int| 0 <= k < i && k < p.len() - 1 && #[trigger] p[k] == p[i] && p[k + 1] == p[i + 1];
        assert(false);
    }
    assert forall|n: int| !(#[trigger] on_prefix(p, n, p[i + 1], p[i])) by {
        if on_prefix(p, n, p[i + 1], p[i]) {
            let k = choose|k: int| 0 <= k < n && k < p.len() - 1 && #[trigger] p[k] == p[i + 1] && p[k + 1] == p[i];
            assert(k == i + 1);
            assert(k + 1 == i);
        }
    }
}

/// What a push of `b` along `p` adds to the flow from `u` to each node.
pub open spec fn delta_row(p: Seq<u32>, b: int, u: u32) -> Weights {
    |v: u32| delta(p, b, u, v)
}

/// A push along a path adds to what leaves its first node, takes from what leaves its last,
/// and leaves the balance of every other node as it is.
proof fn lemma_delta_row(p: Seq<u32>, b: int, u: u32)
    requires
        p.no_duplicates(),
        p.len() >= 2,
    ensures
        total(delta_row(p, b, u), all_ids()) == (if u == p[0] { b } else { 0 }) - (if u == p[p.len() - 1] {
            b
        } else {
            0
        }),
{
    let h = delta_row(p, b, u);
    let n = all_ids();
    if p.contains(u) {
        let i = choose|i: int| 0 <= i < p.len() && p[i] == u;
        assert forall|v: u32| #[trigger] on_path(p, u, v) <==> i < p.len() - 1 && v == p[i + 1] by {
            if on_path(p, u, v) {
                let k = choose|k: int| 0 <= k < p.len() - 1 && k < p.len() - 1 && #[trigger] p[k] == u && p[k + 1] == v;
                assert(k == i);
            }
            if i < p.len() - 1 && v == p[i + 1] {
                assert(0 <= i < p.len() - 1 && p[i] == u && p[i + 1] == v);
            }
        }
        assert forall|v: u32| #[trigger] on_path(p, v, u) <==> i > 0 && v == p[i - 1] by {
            if on_path(p, v, u) {
                let k = choose|k: int| 0 <= k < p.len() - 1 && k < p.len() - 1 && #[trigger] p[k] == v && p[k + 1] == u;
                assert(k + 1 == i);
            }
            if i > 0 && v == p[i - 1] {
                let k = i - 1;
                assert(0 <= k < p.len() - 1 && p[k] == v && p[k + 1] == u);
            }
        }
        if 0 < i < p.len() - 1 {
            let x = p[i + 1];
            let y = p[i - 1];
            assert(on_path(p, u, x) && !on_path(p, x, u));
            assert(on_path(p, y, u) && !on_path(p, u, y));
            assert forall|v: u32| v != x && v != y implies #[trigger] h(v) == 0 by {
                assert(!on_path(p, u, v) && !on_path(p, v, u));
            }
            lemma_total_two_points(h, n, x, y);
        } else if i == 0 {
            let x = p[i + 1];
            assert(on_path(p, u, x) && !on_path(p, x, u));
            assert forall|v: u32| v != x implies #[trigger] h(v) == 0 by {
                assert(!on_path(p, u, v) && !on_path(p, v, u));
            }
            lemma_total_point(h, n, x);
        } else {
            let y = p[i - 1];
            assert(on_path(p, y, u) && !on_path(p, u, y));
            assert forall|v: u32| v != y implies #[trigger] h(v) == 0 by {
                assert(!on_path(p, u, v) && !on_path(p, v, u));
            }
            lemma_total_point(h, n, y);
        }
    } else {
        assert forall|v: u32| #[trigger] h(v) == 0 by {
            if on_path(p, u, v) {
                let k = choose|k: int| 0 <= k < p.len() - 1 && k < p.len() - 1 && #[trigger] p[k] == u && p[k + 1] == v;
                assert(p.contains(u));
            }
            if on_path(p, v, u) {
                let k = choose|k: int| 0 <= k < p.len() - 1 && k < p.len() - 1 && #[trigger] p[k] == v && p[k + 1] == u;
                assert(p[k + 1] == u);
                assert(p.contains(u));
            }
        }
        lemma_total_zero(h, n);
        assert(p[0] != u && p[p.len() - 1] != u) by {
            if p[0] == u || p[p.len() - 1] == u {
                assert(p.contains(u));
            }
        }
    }
}

/// Pushes `b` along `p`: adds it to the flow of every arc of the path, and takes it from the
/// flow of the reverse of every arc.
fn push_along(flow: &mut HashMap<u64, i64>, p: &Vec<u32>, b: i64)
    requires
        p@.no_duplicates(),
        0 <= b <= 0x1_FFFF_FFFE,
        forall|x: u32, y: u32| -0x1_0000_0000 <= #[trigger] flow_at(old(flow)@, x, y) <= 0x1_0000_0000,
    ensures
        forall|x: u32, y: u32| #[trigger]
            flow_at(final(flow)@, x, y) == flow_at(old(flow)@, x, y) + delta(p@, b as int, x, y),
{
    broadcast use group_hash_axioms;

    let ghost start = flow@;
    if p.len() < 2 {
        proof {
            assert forall|x: u32, y: u32| delta(p@, b as int, x, y) == 0 by {}
        }
        return ;
    }
    let mut i: usize = 0;
    while i < p.len() - 1
        invariant
            p@.len() >= 2,
            i <= p@.len() - 1,
            p@.no_duplicates(),
            0 <= b <= 0x1_FFFF_FFFE,
            forall|x: u32, y: u32| -0x1_0000_0000 <= #[trigger] flow_at(start, x, y) <= 0x1_0000_0000,
            forall|x: u32, y: u32| #[trigger]
                flow_at(flow@, x, y) == flow_at(start, x, y) + delta_prefix(p@, i as int, b as int, x, y),
        decreases p@.len() - i,
    {
        let x = p[i];
        let y = p[i + 1];
        let kf = key_of(x, y);
        let kb = key_of(y, x);
        let ghost before = flow@;
        proof {
            lemma_prefix_step(p@, i as int);
            assert(flow_at(before, x, y) == flow_at(start, x, y) + delta_prefix(p@, i as int, b as int, x, y));
            assert(flow_at(before, y, x) == flow_at(start, y, x) + delta_prefix(p@, i as int, b as int, y, x));
        }
        let f: i64 = match flow.get(&kf) {
            Some(f) => *f,
            None => 0,
        };
        flow.insert(kf, f + b);
        let g: i64 = match flow.get(&kb) {
            Some(g) => *g,
            None => 0,
        };
        flow.insert(kb, g - b);
        proof {
            assert forall|a: u32, c: u32| #[trigger]
                flow_at(flow@, a, c) == flow_at(start, a, c) + delta_prefix(p@, i + 1, b as int, a, c) by {
                lemma_pair_key_injective(a, c, x, y);
                lemma_pair_key_injective(a, c, y, x);
                assert(flow_at(before, a, c) == flow_at(start, a, c) + delta_prefix(p@, i as int, b as int, a, c));
                assert(on_prefix(p@, i + 1, a, c) <==> on_prefix(p@, i as int, a, c) || (a == x && c == y));
                assert(on_prefix(p@, i + 1, c, a) <==> on_prefix(p@, i as int, c, a) || (c == x && a == y));
            }
        }
        i += 1;
    }
}

proof fn lemma_sum_flow_update(m1: Map<u64, i64>, m2: Map<u64, i64>, s: u32, targets: Seq<u32>, t: u32, b: int)
    requires
        targets.no_duplicates(),
        forall|i: int|
            0 <= i < targets.len() ==> flow_at(m2, s, #[trigger] targets[i]) == flow_at(m1, s, targets[i]) + (if targets[i]
                == t {
                b
            } else {
                0
            }),
    ensures
        sum_flow(m2, s, targets) == sum_flow(m1, s, targets) + (if targets.contains(t) { b } else { 0 }),
    decreases targets.len(),
{
    if targets.len() > 0 {
        let rest = targets.drop_last();
        let last = targets.last();
        assert forall|i: int| 0 <= i < rest.len() implies flow_at(m2, s, #[trigger] rest[i]) == flow_at(
            m1,
            s,
            rest[i],
        ) + (if rest[i] == t { b } else { 0 }) by {
            assert(rest[i] == targets[i]);
        }
        lemma_sum_flow_update(m1, m2, s, rest, t, b);
        assert(flow_at(m2, s, targets[targets.len() - 1]) == flow_at(m1, s, last) + (if last == t { b } else { 0 }));
        if rest.contains(t) {
            let i = choose|i: int| 0 <= i < rest.len() && rest[i] == t;
            assert(targets[i] == t);
            assert(last != t);
            assert(targets.contains(t));
        } else if last == t {
            assert(targets[targets.len() - 1] == t);
        } else if targets.contains(t) {
            let i = choose|i: int| 0 <= i < targets.len() && targets[i] == t;
            assert(rest[i] == t);
        }
    }
}

proof fn lemma_sum_flow_bounded(flow: Map<u64, i64>, cap: Map<u64, u32>, s: u32, targets: Seq<u32>)
    requires
        forall|u: u32, v: u32| #[trigger] flow_at(flow, u, v) <= capacity_at(cap, u, v),
    ensures
        sum_flow(flow, s, targets) <= sum_capacity(cap, s, targets),
        sum_capacity(cap, s, targets) <= targets.len() * 0xFFFF_FFFF,
    decreases targets.len(),
{
    if targets.len() > 0 {
        lemma_sum_flow_bounded(flow, cap, s, targets.drop_last());
        assert(flow_at(flow, s, targets.last()) <= capacity_at(cap, s, targets.last()));
    }
}

impl Arcs for MaxFlow {
    /// The residual network: an arc wherever there is room.
    open spec fn arc(&self, u: u32, v: u32) -> bool {
        self.room(u, v) > 0
    }

    open spec fn targets(&self, u: u32) -> Seq<u32> {
        (self@.targets())(u)
    }

    open spec fn ready(&self) -> bool {
        self.wf()
    }

    fn successors(&self, u: u32) -> (r: Vec<u32>) {
        broadcast use group_hash_axioms;

        let ghost cap = self@.capacity;
        let ghost flw = self@.flow;
        let mut r: Vec<u32> = Vec::new();
        match self.succ.get(&u) {
            None => {},
            Some(list) => {
                let mut i: usize = 0;
                while i < list.len()
                    invariant
                        i <= list@.len(),
                        self.wf(),
                        cap == self@.capacity,
                        flw == self@.flow,
                        r@ == open_arcs(list@.take(i as int), u, cap, flw),
                    decreases list@.len() - i,
                {
                    let v = list[i];
                    proof {
                        assert(list@.take(i + 1).drop_last() =~= list@.take(i as int));
                        assert(list@.take(i + 1).last() == v);
                    }
                    if self.room_between(u, v) > 0 {
                        r.push(v);
                    }
                    i += 1;
                }
                proof {
                    assert(list@.take(list@.len() as int) =~= list@);
                }
            },
        }
        let ghost forth = r@;
        let back = self.pred.successors(u);
        let mut i: usize = 0;
        while i < back.len()
            invariant
                i <= back@.len(),
                self.wf(),
                cap == self@.capacity,
                flw == self@.flow,
                r@ == forth + open_arcs(back@.take(i as int), u, cap, flw),
            decreases back@.len() - i,
        {
            let v = back[i];
            proof {
                assert(back@.take(i + 1).drop_last() =~= back@.take(i as int));
                assert(back@.take(i + 1).last() == v);
            }
            if self.room_between(u, v) > 0 {
                r.push(v);
                proof {
                    assert(r@ =~= forth + open_arcs(back@.take(i as int), u, cap, flw).push(v));
                }
            }
            i += 1;
        }
        proof {
            assert(back@.take(back@.len() as int) =~= back@);
            assert(forth == open_arcs(self@.list(u), u, cap, flw));
            assert(back@ == (self@.back)(u));
            assert(r@ == self.targets(u));
            let second = open_arcs(back@, u, cap, flw);
            assert forall|v: u32| r@.contains(v) <==> self.arc(u, v) by {
                lemma_open_arcs(self@.list(u), u, cap, flw, v);
                lemma_open_arcs(back@, u, cap, flw, v);
                if r@.contains(v) {
                    let k = choose|k: int| 0 <= k < r@.len() && r@[k] == v;
                    if k < forth.len() {
                        assert(forth[k] == v);
                        assert(forth.contains(v));
                    } else {
                        assert(second[k - forth.len()] == v);
                        assert(second.contains(v));
                    }
                }
                if self.room(u, v) > 0 {
                    assert(flow_at(self.flow@, u, v) == -flow_at(self.flow@, v, u));
                    assert(flow_at(self.flow@, v, u) <= capacity_at(self.capacity@, v, u));
                    if self.capacity@.contains_key(pair_key(u, v)) {
                        assert(self.succ@.contains_key(u) && self.succ@[u]@.contains(v));
                        assert(forth.contains(v));
                        let k = choose|k: int| 0 <= k < forth.len() && forth[k] == v;
                        assert(r@[k] == v);
                    } else {
                        assert(self.capacity@.contains_key(pair_key(v, u)));
                        assert(self.pred.joined(u, v));
                        assert(self.pred.arc(u, v));
                        assert(back@.contains(v));
                        assert(second.contains(v));
                        let k = choose|k: int| 0 <= k < second.len() && second[k] == v;
                        assert(r@[forth.len() + k] == v);
                    }
                }
            }
        }
        r
    }
}

impl MaxFlow {
    /// The residual network as a relation: an arc wherever there is room.
    pub open spec fn residual_arcs(&self) -> Relation {
        |u: u32, v: u32| self.room(u, v) > 0
    }

    /// An augmenting path exists: the source is not the sink, and reaches it through arcs
    /// with room.
    pub open spec fn augmentable(&self) -> bool {
        self.source() != self.sink() && reachable(self.residual_arcs(), self.source(), self.sink())
    }

    /// `b` is the bottleneck of `p`: the least room on its arcs.
    pub open spec fn is_bottleneck(&self, p: Seq<u32>, b: int) -> bool {
        &&& forall|i: int| 0 <= i < p.len() - 1 ==> b <= self.room(#[trigger] p[i], p[i + 1])
        &&& exists|i: int| 0 <= i < p.len() - 1 && b == self.room(#[trigger] p[i], p[i + 1])
    }

    /// `next` has the capacities, the source and the sink of `self`.
    pub open spec fn same_network(&self, next: &MaxFlow) -> bool {
        &&& next.source() == self.source()
        &&& next.sink() == self.sink()
        &&& next.source_capacity() == self.source_capacity()
        &&& forall|u: u32, v: u32| #[trigger] next.capacity(u, v) == self.capacity(u, v)
    }

    /// No augmenting path has fewer arcs than `p`.
    pub open spec fn is_shortest(&self, p: Seq<u32>) -> bool {
        forall|q: Seq<u32>| #[trigger]
            walk_between(self.residual_arcs(), q, self.source(), self.sink()) ==> p.len() <= q.len()
    }

    /// `next` is `self` after a push of `b` along `p`, a shortest augmenting path, without
    /// repetition, of which `b` is the bottleneck.
    pub open spec fn augmented_to(&self, next: &MaxFlow, p: Seq<u32>, b: int) -> bool {
        &&& walk_between(self.residual_arcs(), p, self.source(), self.sink())
        &&& self.is_shortest(p)
        &&& p.no_duplicates()
        &&& self.is_bottleneck(p, b)
        &&& b > 0
        &&& forall|x: u32, y: u32| #[trigger] next.flow(x, y) == self.flow(x, y) + delta(p, b, x, y)
        &&& next.accumulated() == self.accumulated() + b
        &&& next.steps() == self.steps() + 1
        &&& next.path() == Some(p)
        &&& !next.is_terminal()
    }

    /// `next` is `self` after a step that found no path.
    pub open spec fn halted_to(&self, next: &MaxFlow) -> bool {
        &&& forall|x: u32, y: u32| #[trigger] next.flow(x, y) == self.flow(x, y)
        &&& next.accumulated() == self.accumulated()
        &&& next.steps() == self.steps()
        &&& next.path() is None
        &&& next.is_terminal()
    }

    /// The flow is a flow from the source to the sink within the capacities, the accumulated
    /// flow is its value, and neither it nor the number of steps exceeds what can leave the
    /// source. There is room on a pair where residual capacity is left on it or where flow
    /// runs the other way; on a pair without capacity the room is the flow that runs back.
    pub proof fn lemma_flow_valid(&self)
        requires
            self.wf(),
        ensures
            self.accumulated() == self@.leaving(),
            valid_flow(self@.capacity, self@.flow, self.source(), self.sink()),
            value(self@.flow, self.source()) == self.accumulated(),
            forall|u: u32, v: u32| #[trigger] self.flow(u, v) <= self.capacity(u, v),
            forall|u: u32, v: u32| #[trigger] self.flow(u, v) == -self.flow(v, u),
            forall|u: u32, v: u32| 0 <= #[trigger] self.capacity(u, v) <= 0xFFFF_FFFF,
            forall|u: u32, v: u32| 0 <= #[trigger] self.room(u, v) <= self.capacity(u, v) + self.capacity(v, u),
            forall|u: u32, v: u32| #[trigger]
                self.room(u, v) > 0 <==> self.residual(u, v) > 0 || self.flow(v, u) > 0,
            forall|u: u32, v: u32|
                self.capacity(u, v) == 0 ==> #[trigger] self.room(u, v) == self.flow(v, u),
            0 <= self.steps() <= self.accumulated() <= self.source_capacity(),
            self.source_capacity() <= 0xFFFF_FFFF_0000_0000,
    {
        assert forall|u: u32, v: u32| #[trigger] self.flow(u, v) <= self.capacity(u, v) by {
            assert(flow_at(self.flow@, u, v) <= capacity_at(self.capacity@, u, v));
        }
        assert forall|u: u32, v: u32| #[trigger] self.flow(u, v) == -self.flow(v, u) by {
            assert(flow_at(self.flow@, u, v) == -flow_at(self.flow@, v, u));
        }
        assert forall|u: u32, v: u32| 0 <= #[trigger] self.room(u, v) <= self.capacity(u, v) + self.capacity(
            v,
            u,
        ) by {
            assert(self.flow(u, v) <= self.capacity(u, v));
            assert(self.flow(v, u) <= self.capacity(v, u));
            assert(self.flow(u, v) == -self.flow(v, u));
        }
        assert forall|u: u32, v: u32| #[trigger]
            self.room(u, v) > 0 <==> self.residual(u, v) > 0 || self.flow(v, u) > 0 by {
            assert(self.flow(u, v) <= self.capacity(u, v));
            assert(self.flow(u, v) == -self.flow(v, u));
        }
        assert forall|u: u32, v: u32| self.capacity(u, v) == 0 implies #[trigger] self.room(u, v) == self.flow(
            v,
            u,
        ) by {
            assert(self.flow(u, v) == -self.flow(v, u));
        }
        assert(valid_flow(self@.capacity, self@.flow, self.source, self.sink)) by {
            assert forall|u: u32, v: u32| #[trigger] (self@.flow)(u, v) <= (self@.capacity)(u, v) by {
                assert(flow_at(self.flow@, u, v) <= capacity_at(self.capacity@, u, v));
            }
            assert forall|u: u32, v: u32| #[trigger] (self@.flow)(u, v) == -(self@.flow)(v, u) by {
                assert(flow_at(self.flow@, u, v) == -flow_at(self.flow@, v, u));
            }
        }
        lemma_sum_flow_bounded(self.flow@, self.capacity@, self.source, self.source_targets());
        lemma_flow_to(self.flow@, self@.flow, self.source, self.source_targets());
        assert(self@.list(self.source) == self.source_targets());
        if self.succ@.contains_key(self.source) {
            lemma_distinct_ids_bound(self.succ@[self.source]@);
        }
        assert(self.source_targets().len() * 0xFFFF_FFFF <= 0xFFFF_FFFF_0000_0000) by (nonlinear_arith)
            requires
                self.source_targets().len() <= 0x1_0000_0000,
        ;
    }

    /// The room from `u` to `v`.
    pub fn room_between(&self, u: u32, v: u32) -> (r: u64)
        requires
            self.wf(),
        ensures
            r == self.room(u, v),
            r <= 0x1_FFFF_FFFE,
    {
        broadcast use group_hash_axioms;

        proof {
            assert(flow_at(self.flow@, u, v) <= capacity_at(self.capacity@, u, v));
            assert(flow_at(self.flow@, v, u) <= capacity_at(self.capacity@, v, u));
            assert(flow_at(self.flow@, u, v) == -flow_at(self.flow@, v, u));
        }
        let k = key_of(u, v);
        let c: u32 = match self.capacity.get(&k) {
            Some(c) => *c,
            None => 0,
        };
        let f: i64 = match self.flow.get(&k) {
            Some(f) => *f,
            None => 0,
        };
        (c as i64 - f) as u64
    }

    /// The least room along `p`.
    fn bottleneck(&self, p: &Vec<u32>) -> (b: u64)
        requires
            self.wf(),
            p@.len() >= 2,
        ensures
            self.is_bottleneck(p@, b as int),
            b == self@.bottleneck(p@),
            b <= 0x1_FFFF_FFFE,
    {
        let mut b: u64 = self.room_between(p[0], p[1]);
        let ghost mut at: int = 0;
        let mut i: usize = 1;
        while i < p.len() - 1
            invariant
                self.wf(),
                p@.len() >= 2,
                1 <= i <= p@.len() - 1,
                0 <= at < i,
                b == self.room(p@[at], p@[at + 1]),
                b == self@.least(p@, i as int),
                b <= 0x1_FFFF_FFFE,
                forall|j: int| 0 <= j < i ==> b <= self.room(#[trigger] p@[j], p@[j + 1]),
            decreases p@.len() - i,
        {
            let r = self.room_between(p[i], p[i + 1]);
            if r < b {
                b = r;
                proof {
                    at = i as int;
                }
            }
            i += 1;
        }
        b
    }

    /// What a push of the bottleneck along an augmenting path leaves: a flow within the
    /// capacities, with the flow back the negative of the flow forth, of which the source
    /// sends out the bottleneck more than before.
    proof fn lemma_after_push(&self, flow2: Map<u64, i64>, p: Seq<u32>, b: int)
        requires
            self.wf(),
            walk_between(self.residual_arcs(), p, self.source, self.sink),
            p.no_duplicates(),
            p.len() >= 2,
            self.is_bottleneck(p, b),
            forall|x: u32, y: u32| #[trigger] flow_at(flow2, x, y) == flow_at(self.flow@, x, y) + delta(p, b, x, y),
        ensures
            b > 0,
            forall|u: u32, v: u32| #[trigger] flow_at(flow2, u, v) <= capacity_at(self.capacity@, u, v),
            forall|u: u32, v: u32| #[trigger] flow_at(flow2, u, v) == -flow_at(flow2, v, u),
            sum_flow(flow2, self.source, self.source_targets()) == self.accumulated_flow + b,
            self.accumulated_flow + b <= 0xFFFF_FFFF_0000_0000,
            forall|v: u32| #[trigger] flow_at(flow2, self.source, v) >= 0,
    {
        let arcs = self.residual_arcs();
        self.lemma_flow_valid();
        let w = choose|i: int| 0 <= i < p.len() - 1 && b == self.room(#[trigger] p[i], p[i + 1]);
        assert(arcs(p[w], p[w + 1]));
        assert forall|x: u32, y: u32| on_path(p, x, y) implies b <= self.room(x, y) && !on_path(p, y, x) by {
            let i = choose|i: int| 0 <= i < p.len() - 1 && i < p.len() - 1 && #[trigger] p[i] == x && p[i + 1] == y;
            lemma_prefix_step(p, i);
            assert(b <= self.room(p[i], p[i + 1]));
        }
        assert forall|u: u32, v: u32| #[trigger] flow_at(flow2, u, v) <= capacity_at(self.capacity@, u, v) by {
            assert(flow_at(flow2, u, v) == flow_at(self.flow@, u, v) + delta(p, b, u, v));
            assert(self.flow(u, v) <= self.capacity(u, v));
            if on_path(p, u, v) {
                assert(b <= self.room(u, v));
            }
        }
        assert forall|u: u32, v: u32| #[trigger] flow_at(flow2, u, v) == -flow_at(flow2, v, u) by {
            assert(flow_at(flow2, u, v) == flow_at(self.flow@, u, v) + delta(p, b, u, v));
            assert(flow_at(flow2, v, u) == flow_at(self.flow@, v, u) + delta(p, b, v, u));
            assert(self.flow(u, v) == -self.flow(v, u));
        }
        let s = self.source;
        let targets = self.source_targets();
        let t1 = p[1];
        lemma_prefix_step(p, 0);
        assert(arcs(p[0int], p[0int + 1]));
        assert(self.room(s, t1) > 0);
        assert(self.flow(s, t1) <= self.capacity(s, t1));
        assert(flow_at(self.flow@, s, t1) >= 0);
        assert(self.capacity@.contains_key(pair_key(s, t1)));
        assert forall|v: u32| #[trigger] flow_at(flow2, s, v) >= 0 by {
            assert(flow_at(flow2, s, v) == flow_at(self.flow@, s, v) + delta(p, b, s, v));
            assert(flow_at(self.flow@, s, v) >= 0);
            if on_path(p, v, s) {
                let k = choose|k: int| 0 <= k < p.len() - 1 && k < p.len() - 1 && #[trigger] p[k] == v && p[k + 1] == s;
                assert(p[k + 1] == p[0]);
            }
        }
        assert(self.succ@.contains_key(s) && self.succ@[s]@.contains(t1));
        assert(targets.contains(t1));
        assert forall|i: int| 0 <= i < targets.len() implies flow_at(flow2, s, #[trigger] targets[i]) == flow_at(
            self.flow@,
            s,
            targets[i],
        ) + (if targets[i] == t1 { b } else { 0 }) by {
            let v = targets[i];
            assert(flow_at(flow2, s, v) == flow_at(self.flow@, s, v) + delta(p, b, s, v));
            if on_path(p, s, v) {
                let k = choose|k: int| 0 <= k < p.len() - 1 && k < p.len() - 1 && #[trigger] p[k] == s && p[k + 1] == v;
                assert(k == 0);
            }
            if v == t1 {
                assert(0 <= 0int < p.len() - 1 && p[0int] == s && p[0int + 1] == v);
                assert(on_path(p, s, v));
            }
            if on_path(p, v, s) {
                let k = choose|k: int| 0 <= k < p.len() - 1 && k < p.len() - 1 && #[trigger] p[k] == v && p[k + 1] == s;
                assert(p[k + 1] == p[0]);
            }
        }
        lemma_sum_flow_update(self.flow@, flow2, s, targets, t1, b);
        lemma_sum_flow_bounded(flow2, self.capacity@, s, targets);
    }

    /// A push along a path from the source to the sink keeps the balance of every other node,
    /// and sends the pushed amount more out of the source.
    proof fn lemma_push_conserves(&self, flow2: Map<u64, i64>, p: Seq<u32>, b: int)
        requires
            self.wf(),
            self.source != self.sink,
            p.no_duplicates(),
            p.len() >= 2,
            p[0] == self.source,
            p[p.len() - 1] == self.sink,
            forall|x: u32, y: u32| #[trigger] flow_at(flow2, x, y) == flow_at(self.flow@, x, y) + delta(p, b, x, y),
        ensures
            forall|u: u32| u != self.source && u != self.sink ==> #[trigger] leaving(flow_fn(flow2), u) == 0,
            leaving(flow_fn(flow2), self.source) == self.accumulated_flow + b,
    {
        let old_flow = flow_fn(self.flow@);
        let new_flow = flow_fn(flow2);
        assert forall|u: u32| #[trigger]
            leaving(new_flow, u) == leaving(old_flow, u) + (if u == self.source { b } else { 0 }) - (if u
                == self.sink { b } else { 0 }) by {
            assert forall|v: u32| #[trigger] row(new_flow, u)(v) == row(old_flow, u)(v) + delta_row(p, b, u)(v) by {
                assert(flow_at(flow2, u, v) == flow_at(self.flow@, u, v) + delta(p, b, u, v));
            }
            lemma_total_sum(row(old_flow, u), delta_row(p, b, u), row(new_flow, u), all_ids());
            lemma_delta_row(p, b, u);
        }
    }

    /// Where no augmenting path is left, the flow is a largest flow: the nodes that the
    /// source still reaches are one side of a cut that the flow fills.
    proof fn lemma_stuck_is_maximum(&self)
        requires
            self.wf(),
            self.source != self.sink,
            !self.augmentable(),
        ensures
            self@.maximal(),
    {
        let c = self@.capacity;
        let f = self@.flow;
        let s = self.source;
        let t = self.sink;
        let arcs = self.residual_arcs();
        let side: Side = |v: u32| reachable(arcs, s, v);
        self.lemma_flow_valid();
        crate::paths::lemma_reach_self(arcs, s);
        assert forall|u: u32, v: u32| side(u) && !side(v) implies #[trigger] f(u, v) == c(u, v) by {
            if self.room(u, v) > 0 {
                assert(arcs(u, v));
                crate::paths::lemma_reach_step(arcs, s, u, v);
            }
            assert(self.flow(u, v) <= self.capacity(u, v));
        }
        lemma_full_cut_is_maximum(c, f, s, t, side);
    }

    /// Searches the residual network breadth-first for a path from the source to the sink:
    /// an augmenting path without repetition, where there is one.
    pub fn bfs_find_path(&self) -> (r: Option<Vec<u32>>)
        requires
            self.wf(),
        ensures
            r is Some <==> self.augmentable(),
            r is Some <==> self@.find() is Some,
            r matches Some(p) ==> self@.find() == Some(p@),
            r matches Some(p) ==> walk_between(self.residual_arcs(), p@, self.source(), self.sink())
                && p@.no_duplicates() && p@.len() >= 2 && self.is_shortest(p@),
    {
        let ghost arcs = self.residual_arcs();
        if self.source == self.sink {
            return None;
        }
        let tree = search(self, self.source, Some(self.sink));
        proof {
            assert(relation(self) =~= arcs);
            assert(targets_of(self) =~= self@.targets());
            tree.lemma_met();
            tree.lemma_view();
        }
        if !tree.reached(self.sink) {
            return None;
        }
        let p = tree.path_to(self.sink);
        proof {
            assert forall|x: u32, y: u32| #[trigger] (tree.links())(x, y) implies arcs(x, y) by {
                assert(tree.link(x, y));
                assert(self.arc(x, y));
            }
            lemma_walk_mono(tree.links(), arcs, p@);
            if p@.len() < 2 {
                assert(p@[0] == p@[p@.len() - 1]);
            }
            assert(walk_between(arcs, p@, self.source, self.sink));
        }
        Some(p)
    }

    /// Pushes the bottleneck of the augmenting path `p` along it, and records the step.
    fn augment(&mut self, p: Vec<u32>)
        requires
            old(self).wf(),
            old(self)@.find() == Some(p@),
            walk_between(old(self).residual_arcs(), p@, old(self).source(), old(self).sink()),
            old(self).is_shortest(p@),
            p@.no_duplicates(),
            p@.len() >= 2,
        ensures
            final(self).wf(),
            final(self)@ == old(self)@.step(),
            old(self).same_network(final(self)),
            old(self).augmented_to(final(self), p@, final(self).accumulated() - old(self).accumulated()),
    {
        let ghost pre = *self;
        proof {
            self.lemma_flow_valid();
        }
        let b = self.bottleneck(&p);
        proof {
            assert forall|x: u32, y: u32| -0x1_0000_0000 <= #[trigger] flow_at(self.flow@, x, y) <= 0x1_0000_0000 by {
                assert(pre.flow(x, y) <= pre.capacity(x, y));
                assert(pre.flow(y, x) <= pre.capacity(y, x));
                assert(pre.flow(x, y) == -pre.flow(y, x));
                assert(0 <= pre.capacity(x, y) <= 0xFFFF_FFFF);
                assert(0 <= pre.capacity(y, x) <= 0xFFFF_FFFF);
            }
        }
        push_along(&mut self.flow, &p, b as i64);
        proof {
            pre.lemma_after_push(self.flow@, p@, b as int);
            assert(pre.source != pre.sink) by {
                if pre.source == pre.sink {
                    assert(p@[0] == p@[p@.len() - 1]);
                }
            }
            pre.lemma_push_conserves(self.flow@, p@, b as int);
        }
        self.accumulated_flow = self.accumulated_flow + b;
        self.step_count = self.step_count + 1;
        self.current_path = Some(p);
        self.terminal = false;
        proof {
            let next = pre@.step();
            assert(self@.flow =~= next.flow) by {
                assert forall|x: u32, y: u32| #[trigger] (self@.flow)(x, y) == (next.flow)(x, y) by {
                    assert(flow_at(self.flow@, x, y) == flow_at(pre.flow@, x, y) + delta(p@, b as int, x, y));
                }
            }
            assert(self@.succ =~= next.succ);
            assert(self@.back == next.back);
            assert(self@.capacity =~= next.capacity);
            assert(self@ =~= next);
        }
    }

    /// Records that no augmenting path is left.
    fn halt(&mut self)
        requires
            old(self).wf(),
            old(self)@.find() is None,
            !old(self).augmentable(),
        ensures
            final(self).wf(),
            final(self)@ == old(self)@.step(),
            old(self).same_network(final(self)),
            old(self).halted_to(final(self)),
            old(self).source() != old(self).sink() ==> final(self)@.maximal(),
    {
        let ghost pre = *self;
        self.current_path = None;
        self.terminal = true;
        proof {
            let next = pre@.step();
            if pre.source != pre.sink {
                pre.lemma_stuck_is_maximum();
            }
            assert(self@.back == next.back);
            assert(self@.flow =~= next.flow);
            assert(self@.succ =~= next.succ);
            assert(self@.capacity =~= next.capacity);
            assert(self@ =~= next);
        }
    }

    /// Makes one step: searches the residual network breadth-first from the source, and
    /// where the sink is met pushes the bottleneck of the path found. Returns whether a
    /// path was found.
    ///
    /// A path is found exactly where an augmenting path exists. Where none exists the engine
    /// records no path and becomes terminal, nothing else changes, and the flow is a largest
    /// flow from the source to the sink.
    pub fn next_step(&mut self) -> (found: bool)
        requires
            old(self).wf(),
        ensures
            final(self).wf(),
            final(self)@ == old(self)@.step(),
            found == (old(self)@.find() is Some),
            old(self).same_network(final(self)),
            found == old(self).augmentable(),
            !found && old(self).source() != old(self).sink() ==> final(self)@.maximal(),
            found ==> final(self).path() is Some && old(self).augmented_to(
                final(self),
                final(self).path()->0,
                final(self).accumulated() - old(self).accumulated(),
            ),
            !found ==> old(self).halted_to(final(self)),
    {
        match self.bfs_find_path() {
            Some(p) => {
                self.augment(p);
                true
            },
            None => {
                self.halt();
                false
            },
        }
    }

    /// Makes steps until none finds a path, and returns the flow accumulated: the value of
    /// a largest flow from the source to the sink.
    pub fn run(&mut self) -> (total: u64)
        requires
            old(self).wf(),
        ensures
            final(self).wf(),
            final(self)@ == old(self)@.run(enough()),
            total == final(self)@.accumulated,
            old(self).source() != old(self).sink() ==> final(self)@.maximal(),
            old(self).same_network(final(self)),
            !final(self).augmentable(),
            final(self).is_terminal(),
            final(self).path() is None,
            total == final(self).accumulated(),
            old(self).accumulated() <= final(self).accumulated() <= final(self).source_capacity(),
    {
        let ghost end = self@.run(enough());
        let ghost mut made: nat = 0;
        let mut going = true;
        while going
            invariant
                self.wf(),
                old(self).same_network(self),
                old(self).accumulated() <= self.accumulated(),
                made <= self.steps(),
                going ==> end == self@.run((enough() - made) as nat),
                !going ==> end == self@,
                !going ==> !self.augmentable() && self.is_terminal() && self.path() is None,
                !going && self.source() != self.sink() ==> self@.maximal(),
            decreases 2 * (self.source_capacity() - self.accumulated()) + (if going { 1int } else { 0 }),
        {
            let ghost before = *self;
            proof {
                self.lemma_flow_valid();
            }
            going = self.next_step();
            proof {
                self.lemma_flow_valid();
                if going {
                    made = made + 1;
                } else {
                    assert(self.residual_arcs() =~= before.residual_arcs()) by {
                        assert forall|u: u32, v: u32| self.room(u, v) == before.room(u, v) by {
                            assert(self.flow(u, v) == before.flow(u, v));
                            assert(self.capacity(u, v) == before.capacity(u, v));
                        }
                    }
                }
            }
        }
        proof {
            self.lemma_flow_valid();
        }
        self.accumulated_flow
    }

    /// Forgets the flow, the accumulated flow and the steps. The capacities stay.
    pub fn reset(&mut self)
        requires
            old(self).wf(),
        ensures
            final(self).wf(),
            final(self)@ == old(self)@.cleared(),
            old(self).same_network(final(self)),
            final(self).fresh(),
    {
        let ghost pre = *self;
        self.flow = HashMap::new();
        self.accumulated_flow = 0;
        self.step_count = 0;
        self.current_path = None;
        self.terminal = false;
        proof {
            assert forall|u: u32, v: u32| #[trigger] flow_at(self.flow@, u, v) == 0 by {}
            lemma_sum_flow_zero(self.flow@, self.source, self.source_targets());
            assert forall|u: u32, v: u32| #[trigger] flow_at(self.flow@, u, v) <= capacity_at(self.capacity@, u, v) by {}
            assert forall|u: u32| #[trigger] leaving(flow_fn(self.flow@), u) == 0 by {
                lemma_total_zero(row(flow_fn(self.flow@), u), all_ids());
            }
            assert(self@.back == pre@.back);
            let next = pre@.cleared();
            assert(self@.flow =~= next.flow);
            assert(self@.succ =~= next.succ);
            assert(self@.capacity =~= next.capacity);
            assert(self@ =~= next);
        }
    }

    /// Forgets the flow as `reset` does, and takes a new source and a new sink.
    pub fn retarget(&mut self, source: u32, sink: u32)
        requires
            old(self).wf(),
        ensures
            final(self).wf(),
            final(self)@ == (Net { source, sink, ..old(self)@.cleared() }),
            final(self).source() == source,
            final(self).sink() == sink,
            forall|u: u32, v: u32| #[trigger] final(self).capacity(u, v) == old(self).capacity(u, v),
            final(self).fresh(),
    {
        let ghost pre = *self;
        self.flow = HashMap::new();
        self.source = source;
        self.sink = sink;
        self.accumulated_flow = 0;
        self.step_count = 0;
        self.current_path = None;
        self.terminal = false;
        proof {
            assert forall|u: u32, v: u32| #[trigger] flow_at(self.flow@, u, v) == 0 by {}
            lemma_sum_flow_zero(self.flow@, self.source, self.source_targets());
            assert forall|u: u32, v: u32| #[trigger] flow_at(self.flow@, u, v) <= capacity_at(self.capacity@, u, v) by {}
            assert forall|u: u32| #[trigger] leaving(flow_fn(self.flow@), u) == 0 by {
                lemma_total_zero(row(flow_fn(self.flow@), u), all_ids());
            }
            assert(self@.back == pre@.back);
            let next = Net { source, sink, ..pre@.cleared() };
            assert(self@.flow =~= next.flow);
            assert(self@.succ =~= next.succ);
            assert(self@.capacity =~= next.capacity);
            assert(self@ =~= next);
        }
    }

    /// The node from which the flow starts.
    pub fn get_source(&self) -> (s: u32)
        ensures
            s == self.source(),
    {
        self.source
    }

    /// The node at which the flow arrives.
    pub fn get_sink(&self) -> (s: u32)
        ensures
            s == self.sink(),
    {
        self.sink
    }

    /// The flow that the steps so far have brought to the sink.
    pub fn accumulated_flow(&self) -> (f: u64)
        ensures
            f == self.accumulated(),
    {
        self.accumulated_flow
    }

    /// The number of steps that found a path.
    pub fn step_count(&self) -> (n: u64)
        ensures
            n == self.steps(),
    {
        self.step_count
    }

    /// The path of the last step, if it found one.
    pub fn current_path(&self) -> (p: Option<&Vec<u32>>)
        ensures
            p is Some <==> self.path() is Some,
            p matches Some(v) ==> self.path() == Some(v@),
    {
        match &self.current_path {
            Some(p) => Some(p),
            None => None,
        }
    }

    /// Whether the last step found no path.
    pub fn terminal(&self) -> (b: bool)
        ensures
            b == self.is_terminal(),
    {
        self.terminal
    }

    /// The capacity from `u` to `v`.
    pub fn capacity_between(&self, u: u32, v: u32) -> (c: u32)
        ensures
            c == self.capacity(u, v),
    {
        broadcast use group_hash_axioms;

        match self.capacity.get(&key_of(u, v)) {
            Some(c) => *c,
            None => 0,
        }
    }

    /// The flow from `u` to `v`.
    pub fn flow_between(&self, u: u32, v: u32) -> (f: i64)
        ensures
            f == self.flow(u, v),
    {
        broadcast use group_hash_axioms;

        match self.flow.get(&key_of(u, v)) {
            Some(f) => *f,
            None => 0,
        }
    }

    /// The residual capacity from `u` to `v`.
    pub fn residual_between(&self, u: u32, v: u32) -> (r: u64)
        ensures
            r == self.residual(u, v),
    {
        residual(&self.capacity, &self.flow, u, v)
    }
}

/// The value of a largest flow from `start` to `end`, the weights of the edges being the
/// capacities: the flow that is reached by pushing the bottleneck along one augmenting path
/// after another, each a shortest one, until none is left. Where `start` is `end` it is 0.
///
/// `GraphMustBeDirected` where the graph is undirected.
pub fn task_11<T>(graph: &Graph<T>, start: u32, end: u32) -> (r: Result<u64, GraphError>)
    requires
        graph.wf(),
    ensures
        r is Ok <==> graph.directed(),
        r matches Err(e) ==> e.spec_kind() == GraphKindError::GraphMustBeDirected,
        r matches Ok(total) ==> if start == end {
            total == 0
        } else {
            max_flow_value(capacities_of(graph), start, end, total as int)
        },
{
    match build_capacity_and_flow(graph, start, end) {
        Err(e) => Err(e),
        Ok(engine) => {
            let mut engine = engine;
            let ghost built = engine;
            let total = engine.run();
            proof {
                lemma_run_keeps_network(built@, enough());
                built.lemma_view();
                engine.lemma_view();
                if start == end {
                    assert(built@.find() is None);
                    assert(engine@ == built@.step());
                }
            }
            Ok(total)
        },
    }
}

} // verus!
