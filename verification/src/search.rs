//! Breadth-first search over any source of arcs, with the search tree it leaves behind.

use std::collections::HashMap;
use vstd::prelude::*;
use vstd::std_specs::hash::group_hash_axioms;
use crate::paths::{
    lemma_closed_holds_reachable, lemma_distinct_ids_bound, lemma_reach_self, lemma_reach_step,
    is_walk, lemma_walk_reverse, reachable, walk_between, Relation,
};

verus! {

/// Something that knows, for each node, where its arcs lead.
pub trait Arcs {
    /// There is an arc from `u` to `v`.
    spec fn arc(&self, u: u32, v: u32) -> bool;

    /// The nodes to which an arc leads from `u`, in the order in which a search takes them.
    spec fn targets(&self, u: u32) -> Seq<u32>;

    /// The source is in a state in which it can be asked.
    spec fn ready(&self) -> bool;

    /// The nodes to which an arc leads from `u`.
    fn successors(&self, u: u32) -> (r: Vec<u32>)
        requires
            self.ready(),
        ensures
            r@ == self.targets(u),
            forall|v: u32| r@.contains(v) <==> self.arc(u, v),
    ;
}

/// For each node, the nodes to which its arcs lead, in order.
pub type Targets = spec_fn(u32) -> Seq<u32>;

/// The targets of `a` as a function.
pub open spec fn targets_of<A: Arcs>(a: &A) -> Targets {
    |u: u32| a.targets(u)
}

/// What a search has found so far: the nodes in the order in which they were met, for each
/// the place of the node from which it was met, and whether the search has met its goal.
pub struct Trace {
    pub order: Seq<u32>,
    pub parent: Seq<int>,
    pub done: bool,
}

/// The trace after the search has gone through `list`, the targets of the node at place
/// `head`, from place `k` on: each target not met before is met now, in order, and the
/// search is done once the goal is met.
pub open spec fn scan(t: Trace, head: int, list: Seq<u32>, k: int, goal: Option<u32>) -> Trace
    decreases list.len() - k,
{
    if t.done || k < 0 || k >= list.len() {
        t
    } else if t.order.contains(list[k]) {
        scan(t, head, list, k + 1, goal)
    } else {
        scan(
            Trace { order: t.order.push(list[k]), parent: t.parent.push(head), done: goal == Some(list[k]) },
            head,
            list,
            k + 1,
            goal,
        )
    }
}

/// The trace after the search has gone on from the node at place `head`: it takes the nodes
/// in the order in which it met them, and goes through the targets of each.
pub open spec fn sweep(f: Targets, t: Trace, head: int, goal: Option<u32>, fuel: nat) -> Trace
    decreases fuel,
{
    if fuel == 0 || t.done || head < 0 || head >= t.order.len() {
        t
    } else {
        sweep(f, scan(t, head, f(t.order[head]), 0, goal), head + 1, goal, (fuel - 1) as nat)
    }
}

/// The trace of a whole breadth-first search from `start`.
pub open spec fn trace(f: Targets, start: u32, goal: Option<u32>) -> Trace {
    sweep(f, Trace { order: seq![start], parent: seq![0int], done: false }, 0, goal, 0x1_0000_0001)
}

/// The way from the first node of the trace to the node at place `i`, by the places from
/// which the nodes were met.
pub open spec fn climb(t: Trace, i: int) -> Seq<u32>
    decreases i,
{
    if i <= 0 || i >= t.order.len() || i >= t.parent.len() || !(0 <= t.parent[i] < i) {
        seq![t.order[0]]
    } else {
        climb(t, t.parent[i]).push(t.order[i])
    }
}

/// The way from the first node of the trace to `v`, which the trace holds.
pub open spec fn way(t: Trace, v: u32) -> Seq<u32> {
    climb(t, t.order.index_of(v))
}

/// The arcs of `a` as a relation.
pub open spec fn relation<A: Arcs>(a: &A) -> Relation {
    |u: u32, v: u32| a.arc(u, v)
}

/// What a search found: the nodes in the order in which they were met, and for each but the
/// first the node from which it was met.
#[derive(Debug)]
pub struct SearchTree {
    order: Vec<u32>,
    parent: Vec<usize>,
    index: HashMap<u32, usize>,
    stopped: bool,
}

impl View for SearchTree {
    type V = Trace;

    closed spec fn view(&self) -> Trace {
        Trace { order: self.order@, parent: self.parent@.map_values(|x: usize| x as int), done: self.stopped }
    }
}

spec fn tree_inv(order: Seq<u32>, parent: Seq<usize>, index: Map<u32, usize>) -> bool {
    &&& order.len() >= 1
    &&& parent.len() == order.len()
    &&& order.no_duplicates()
    &&& forall|v: u32| #[trigger]
        index.contains_key(v) ==> index[v] < order.len() && order[index[v] as int] == v
    &&& forall|i: int|
        0 <= i < order.len() ==> index.contains_key(#[trigger] order[i]) && index[order[i]] == i
    &&& forall|i: int| 0 < i < order.len() ==> (#[trigger] parent[i]) < i
}

/// Every place but the first was met from an earlier place.
pub open spec fn rooted(t: Trace) -> bool {
    &&& t.order.len() >= 1
    &&& t.parent.len() == t.order.len()
    &&& forall|k: int| 0 < k < t.order.len() ==> 0 <= #[trigger] t.parent[k] < k
}

/// A way ends at the node to which it leads.
pub proof fn lemma_climb_ends(t: Trace, i: int)
    requires
        rooted(t),
        0 <= i < t.order.len(),
    ensures
        climb(t, i).len() >= 1,
        climb(t, i)[climb(t, i).len() - 1] == t.order[i],
{
    if i > 0 {
        assert(0 <= t.parent[i] < i);
    }
}

impl SearchTree {
    /// The tree is consistent: no node stands twice, and each was met from an earlier one.
    pub closed spec fn wf(&self) -> bool {
        tree_inv(self.order@, self.parent@, self.index@)
    }

    /// The node from which the search started.
    pub closed spec fn root(&self) -> u32 {
        self.order@[0]
    }

    /// The nodes in the order in which they were met.
    pub closed spec fn met(&self) -> Seq<u32> {
        self.order@
    }

    /// The search met `v`.
    pub closed spec fn visited(&self, v: u32) -> bool {
        self.index@.contains_key(v)
    }

    /// `v` was met from `u`.
    pub closed spec fn link(&self, u: u32, v: u32) -> bool {
        exists|i: int|
            0 < i < self.order@.len() && #[trigger] self.order@[i] == v && self.order@[self.parent@[i] as int]
                == u
    }

    /// The links of the tree as a relation.
    pub open spec fn links(&self) -> Relation {
        |u: u32, v: u32| self.link(u, v)
    }

    /// The trace of a consistent tree is rooted, and holds the nodes of `met()`.
    pub proof fn lemma_view(&self)
        requires
            self.wf(),
        ensures
            rooted(self@),
            self@.order == self.met(),
            self@.order[0] == self.root(),
    {
        let t = self@;
        assert forall|k: int| 0 < k < t.order.len() implies 0 <= #[trigger] t.parent[k] < k by {
            assert(self.parent@[k] < k);
        }
    }

    /// The nodes met are those of `met()`, each once, the root first.
    pub proof fn lemma_met(&self)
        requires
            self.wf(),
        ensures
            self.met().no_duplicates(),
            self.met().len() >= 1,
            self.met()[0] == self.root(),
            forall|v: u32| self.visited(v) <==> self.met().contains(v),
    {
        assert forall|v: u32| self.visited(v) implies self.met().contains(v) by {
            assert(self.order@[self.index@[v] as int] == v);
        }
    }

    /// How many nodes the search met.
    pub fn count(&self) -> (n: usize)
        ensures
            n == self.met().len(),
    {
        self.order.len()
    }

    /// Whether the search met `v`.
    pub fn reached(&self, v: u32) -> (b: bool)
        ensures
            b == self.visited(v),
    {
        broadcast use group_hash_axioms;

        self.index.contains_key(&v)
    }

    /// The nodes in the order in which they were met.
    pub fn nodes(&self) -> (r: &Vec<u32>)
        ensures
            r@ == self.met(),
    {
        &self.order
    }

    /// The way from the root to `v` along the links of the tree.
    pub fn path_to(&self, v: u32) -> (p: Vec<u32>)
        requires
            self.wf(),
            self.visited(v),
        ensures
            p@ == way(self@, v),
            walk_between(self.links(), p@, self.root(), v),
            p@.no_duplicates(),
            forall|i: int| 0 <= i < p@.len() ==> self.visited(#[trigger] p@[i]),
    {
        broadcast use group_hash_axioms;

        let o = self.index.get(&v);
        let mut i: usize = *o.unwrap();
        let ghost first = i as int;
        let mut rev: Vec<u32> = Vec::new();
        rev.push(v);
        proof {
            self.lemma_view();
            assert(self@.order[first] == v);
            assert(self@.order.index_of(v) == first) by {
                let k = self@.order.index_of(v);
                assert(self@.order.contains(v));
                assert(0 <= k < self@.order.len() && self@.order[k] == v);
            }
            assert(climb(self@, first).drop_last() + rev@.reverse() =~= climb(self@, first)) by {
                lemma_climb_ends(self@, first);
                assert(rev@.reverse() =~= seq![v]);
            }
        }
        while i > 0
            invariant
                self.wf(),
                i < self.order@.len(),
                climb(self@, first) == climb(self@, i as int).drop_last() + rev@.reverse(),
                rev@.len() >= 1,
                rev@[0] == v,
                rev@[rev@.len() - 1] == self.order@[i as int],
                forall|j: int| 0 <= j < rev@.len() - 1 ==> self.link(rev@[j + 1], #[trigger] rev@[j]),
                forall|j: int|
                    0 <= j < rev@.len() ==> self.index@.contains_key(#[trigger] rev@[j]) && self.index@[rev@[j]]
                        >= i,
                forall|j: int, k: int|
                    0 <= j < k < rev@.len() ==> self.index@[#[trigger] rev@[j]] > self.index@[#[trigger] rev@[k]],
            decreases i,
        {
            let ghost old_rev = rev@;
            let ghost child = i as int;
            let up = self.parent[i];
            let n = self.order[up];
            rev.push(n);
            proof {
                let t = self@;
                assert(t.parent[child] == up as int);
                assert(climb(t, child) == climb(t, up as int).push(t.order[child]));
                lemma_climb_ends(t, up as int);
                assert(rev@.reverse() =~= seq![n] + old_rev.reverse());
                assert(old_rev.reverse()[0] == t.order[child]);
                assert(climb(t, child).drop_last() =~= climb(t, up as int));
                assert(climb(t, up as int).drop_last() + rev@.reverse() =~= climb(t, child).drop_last()
                    + old_rev.reverse()) by {
                    let c = climb(t, up as int);
                    assert(c =~= c.drop_last().push(n));
                }
                assert(self.order@[child] == old_rev[old_rev.len() - 1]);
                assert(self.link(n, self.order@[child]));
                assert(self.index@[self.order@[up as int]] == up);
                assert forall|j: int| 0 <= j < rev@.len() - 1 implies self.link(
                    rev@[j + 1],
                    #[trigger] rev@[j],
                ) by {
                    if j < old_rev.len() - 1 {
                        assert(self.link(old_rev[j + 1], old_rev[j]));
                    }
                }
                assert forall|j: int, k: int| 0 <= j < k < rev@.len() implies self.index@[#[trigger] rev@[j]]
                    > self.index@[#[trigger] rev@[k]] by {
                    if k < old_rev.len() {
                        assert(self.index@[old_rev[j]] > self.index@[old_rev[k]]);
                    } else {
                        assert(self.index@[old_rev[j]] >= child);
                    }
                }
            }
            i = up;
        }
        let mut p: Vec<u32> = Vec::new();
        let mut k: usize = rev.len();
        while k > 0
            invariant
                k <= rev@.len(),
                p@.len() == rev@.len() - k,
                forall|j: int| 0 <= j < p@.len() ==> #[trigger] p@[j] == rev@[rev@.len() - 1 - j],
            decreases k,
        {
            k -= 1;
            p.push(rev[k]);
        }
        proof {
            assert(p@ =~= rev@.reverse());
            assert(climb(self@, 0) =~= seq![self@.order[0]]);
            assert(rev@.reverse()[0] == self@.order[0]);
            assert(climb(self@, 0).drop_last() + rev@.reverse() =~= rev@.reverse());
            let back: Relation = |x: u32, y: u32| self.link(y, x);
            assert(walk_between(back, rev@, v, self.root())) by {
                assert forall|j: int| 0 <= j < rev@.len() - 1 implies back(#[trigger] rev@[j], rev@[j + 1]) by {
                    assert(self.link(rev@[j + 1], rev@[j]));
                }
            }
            lemma_walk_reverse(back, self.links(), rev@, v, self.root());
            assert forall|a: int, b: int| 0 <= a < p@.len() && 0 <= b < p@.len() && a != b implies p@[a]
                != p@[b] by {
                let ja = rev@.len() - 1 - a;
                let jb = rev@.len() - 1 - b;
                if ja < jb {
                    assert(self.index@[rev@[ja]] > self.index@[rev@[jb]]);
                } else {
                    assert(self.index@[rev@[jb]] > self.index@[rev@[ja]]);
                }
            }
        }
        p
    }
}

/// The nodes of `order` stand by level: each level is one more than the level of the node
/// from which the node was met, no level comes before a lower one, none is more than one
/// above the level of the node at `head`, and whatever an arc reaches from a node before
/// `head` stands at most one level above that node.
spec fn levelled(r: Relation, order: Seq<u32>, level: Seq<nat>, head: int) -> bool {
    &&& level.len() == order.len()
    &&& order.len() >= 1
    &&& level[0] == 0
    &&& 0 <= head <= order.len()
    &&& forall|i: int, j: int| 0 <= i <= j < order.len() ==> #[trigger] level[i] <= #[trigger] level[j]
    &&& forall|i: int| 0 <= i < order.len() && head < order.len() ==> #[trigger] level[i] <= level[head] + 1
    &&& forall|j: int, v: u32|
        0 <= j < head && #[trigger] r(order[j], v) ==> exists|i: int|
            0 <= i < order.len() && #[trigger] order[i] == v && level[i] <= level[j] + 1
}

/// Along a walk from the first node, either the walk has come to a node that stands no
/// higher than the walk is long so far, or the node at place `x` stands no higher.
proof fn lemma_levels(r: Relation, order: Seq<u32>, level: Seq<nat>, head: int, q: Seq<u32>, k: int, x: int)
    requires
        levelled(r, order, level, head),
        is_walk(r, q),
        q[0] == order[0],
        0 <= x < order.len(),
        0 <= k < q.len(),
    ensures
        level[x] <= k || exists|i: int| 0 <= i < order.len() && #[trigger] order[i] == q[k] && level[i] <= k,
    decreases k,
{
    if k == 0 {
        assert(order[0] == q[0] && level[0] <= 0);
    } else {
        lemma_levels(r, order, level, head, q, k - 1, x);
        if level[x] > k - 1 {
            let i = choose|i: int| 0 <= i < order.len() && #[trigger] order[i] == q[k - 1] && level[i] <= k - 1;
            assert(r(q[k - 1], q[k - 1 + 1]));
            if i < head {
                assert(r(order[i], q[k]));
            } else {
                assert(level[head] <= level[i]);
                assert(level[x] <= level[head] + 1);
            }
        }
    }
}

/// A way is one node longer than the level of its end.
proof fn lemma_climb_len(t: Trace, level: Seq<nat>, i: int)
    requires
        rooted(t),
        level.len() == t.order.len(),
        level[0] == 0,
        forall|k: int| 0 < k < t.order.len() ==> #[trigger] level[k] == level[t.parent[k]] + 1,
        0 <= i < t.order.len(),
    ensures
        climb(t, i).len() == level[i] + 1,
    decreases i,
{
    if i > 0 {
        assert(0 <= t.parent[i] < i);
        lemma_climb_len(t, level, t.parent[i]);
    }
}

/// Where the nodes stand by level, no walk from the first node to a node is shorter than
/// the way to that node.
proof fn lemma_ways_are_shortest(r: Relation, t: Trace, level: Seq<nat>, head: int, v: u32, q: Seq<u32>)
    requires
        rooted(t),
        t.order.no_duplicates(),
        levelled(r, t.order, level, head),
        forall|k: int| 0 < k < t.order.len() ==> #[trigger] level[k] == level[t.parent[k]] + 1,
        t.order.contains(v),
        walk_between(r, q, t.order[0], v),
    ensures
        way(t, v).len() <= q.len(),
{
    let x = t.order.index_of(v);
    assert(0 <= x < t.order.len() && t.order[x] == v);
    lemma_climb_len(t, level, x);
    lemma_levels(r, t.order, level, head, q, q.len() - 1, x);
    if level[x] > q.len() - 1 {
        let i = choose|i: int|
            0 <= i < t.order.len() && #[trigger] t.order[i] == q[q.len() - 1] && level[i] <= q.len() - 1;
        assert(i == x);
    }
}

/// Searches breadth-first from `start` along the arcs of `a`. With a `goal` other than
/// `start`, the search stops as soon as it meets the goal.
///
/// The search leaves the trace that `trace` describes. Every node met is reachable from
/// `start`. Unless the search stopped at the goal, every node that is reachable was met.
pub fn search<A: Arcs>(a: &A, start: u32, goal: Option<u32>) -> (t: SearchTree)
    requires
        a.ready(),
    ensures
        t.wf(),
        t@ == trace(targets_of(a), start, goal),
        t.root() == start,
        t.visited(start),
        forall|u: u32, v: u32| #[trigger] t.link(u, v) ==> a.arc(u, v),
        forall|v: u32| #[trigger] t.visited(v) ==> reachable(relation(a), start, v),
        (goal matches Some(g) && g != start && t.visited(g)) || (forall|v: u32| #[trigger]
            reachable(relation(a), start, v) ==> t.visited(v)),
        forall|v: u32, q: Seq<u32>|
            t.visited(v) && #[trigger] walk_between(relation(a), q, start, v) ==> way(t@, v).len() <= q.len(),
{
    broadcast use group_hash_axioms;

    let ghost r = relation(a);
    let ghost f = targets_of(a);
    let ghost mut level: Seq<nat> = seq![0nat];
    let ghost whole = trace(f, start, goal);
    let mut order: Vec<u32> = Vec::new();
    let mut parent: Vec<usize> = Vec::new();
    let mut index: HashMap<u32, usize> = HashMap::new();
    order.push(start);
    parent.push(0);
    index.insert(start, 0);
    proof {
        lemma_reach_self(r, start);
        assert(order@ =~= seq![start]);
        assert(parent@.map_values(|x: usize| x as int) =~= seq![0int]);
    }
    let mut head: usize = 0;
    while head < order.len()
        invariant
            a.ready(),
            r == relation(a),
            f == targets_of(a),
            whole == trace(f, start, goal),
            tree_inv(order@, parent@, index@),
            order@[0] == start,
            head <= order@.len(),
            whole == sweep(
                f,
                Trace { order: order@, parent: parent@.map_values(|x: usize| x as int), done: false },
                head as int,
                goal,
                (0x1_0000_0001 - head) as nat,
            ),
            forall|i: int| 0 <= i < order@.len() ==> reachable(r, start, #[trigger] order@[i]),
            forall|i: int| 0 < i < order@.len() ==> a.arc(order@[parent@[i] as int], #[trigger] order@[i]),
            forall|j: int, v: u32|
                0 <= j < head && a.arc(#[trigger] order@[j], v) ==> #[trigger] index@.contains_key(v),
            levelled(r, order@, level, head as int),
            forall|i: int| 0 < i < order@.len() ==> #[trigger] level[i] == level[parent@[i] as int] + 1,
        decreases 0x1_0000_0000 - head,
    {
        proof {
            lemma_distinct_ids_bound(order@);
        }
        let u = order[head];
        let succ = a.successors(u);
        let mut k: usize = 0;
        while k < succ.len()
            invariant
                a.ready(),
                r == relation(a),
                f == targets_of(a),
                whole == trace(f, start, goal),
                tree_inv(order@, parent@, index@),
                order@[0] == start,
                head < order@.len(),
                head < 0x1_0000_0000,
                u == order@[head as int],
                k <= succ@.len(),
                succ@ == f(u),
                whole == sweep(
                    f,
                    scan(
                        Trace { order: order@, parent: parent@.map_values(|x: usize| x as int), done: false },
                        head as int,
                        succ@,
                        k as int,
                        goal,
                    ),
                    head + 1,
                    goal,
                    (0x1_0000_0000 - head) as nat,
                ),
                forall|v: u32| succ@.contains(v) <==> a.arc(u, v),
                forall|i: int| 0 <= i < order@.len() ==> reachable(r, start, #[trigger] order@[i]),
                forall|i: int|
                    0 < i < order@.len() ==> a.arc(order@[parent@[i] as int], #[trigger] order@[i]),
                forall|j: int, v: u32|
                    0 <= j < head && a.arc(#[trigger] order@[j], v) ==> #[trigger] index@.contains_key(v),
                forall|j: int| 0 <= j < k ==> index@.contains_key(#[trigger] succ@[j]),
                levelled(r, order@, level, head as int),
                forall|i: int| 0 < i < order@.len() ==> #[trigger] level[i] == level[parent@[i] as int] + 1,
            decreases succ@.len() - k,
        {
            let v = succ[k];
            let ghost cur = Trace { order: order@, parent: parent@.map_values(|x: usize| x as int), done: false };
            proof {
                assert(cur.order.contains(v) <==> index@.contains_key(v)) by {
                    if cur.order.contains(v) {
                        let i = choose|i: int| 0 <= i < order@.len() && order@[i] == v;
                        assert(index@.contains_key(order@[i]));
                    }
                    if index@.contains_key(v) {
                        assert(order@[index@[v] as int] == v);
                    }
                }
            }
            if !index.contains_key(&v) {
                let n = order.len();
                let ghost old_order = order@;
                let ghost old_index = index@;
                let ghost old_parent = parent@;
                proof {
                    assert(succ@.contains(v));
                    assert(a.arc(u, v));
                    assert(r(u, v));
                    lemma_reach_step(r, start, u, v);
                    assert forall|i: int| 0 <= i < old_order.len() implies old_order[i] != v by {
                        assert(old_index.contains_key(old_order[i]));
                    }
                }
                index.insert(v, n);
                order.push(v);
                parent.push(head);
                let ghost old_level = level;
                proof {
                    level = level.push(old_level[head as int] + 1);
                    assert(levelled(r, order@, level, head as int)) by {
                        assert forall|i: int, j: int| 0 <= i <= j < order@.len() implies #[trigger] level[i]
                            <= #[trigger] level[j] by {
                            if j < n {
                                assert(old_level[i] <= old_level[j]);
                            } else if i < n {
                                assert(old_level[i] <= old_level[head as int] + 1);
                            }
                        }
                        assert forall|i: int| 0 <= i < order@.len() && head < order@.len() implies #[trigger] level[i]
                            <= level[head as int] + 1 by {
                            if i < n {
                                assert(old_level[i] <= old_level[head as int] + 1);
                            }
                        }
                        assert forall|j: int, w: u32| 0 <= j < head && #[trigger] r(order@[j], w) implies exists|i: int|
                            0 <= i < order@.len() && #[trigger] order@[i] == w && level[i] <= level[j] + 1 by {
                            assert(r(old_order[j], w));
                            let i = choose|i: int|
                                0 <= i < old_order.len() && #[trigger] old_order[i] == w && old_level[i]
                                    <= old_level[j] + 1;
                            assert(order@[i] == w && level[i] <= level[j] + 1);
                        }
                    }
                    assert forall|i: int| 0 < i < order@.len() implies #[trigger] level[i] == level[parent@[i] as int]
                        + 1 by {
                        if i < n {
                            assert(old_level[i] == old_level[old_parent[i] as int] + 1);
                        }
                    }
                }
                let stop = match goal {
                    Some(g) => g == v,
                    None => false,
                };
                proof {
                    assert(parent@.map_values(|x: usize| x as int) =~= old_parent.map_values(|x: usize| x as int).push(
                        head as int,
                    ));
                    assert(scan(cur, head as int, succ@, k as int, goal) == scan(
                        Trace {
                            order: order@,
                            parent: parent@.map_values(|x: usize| x as int),
                            done: goal == Some(v),
                        },
                        head as int,
                        succ@,
                        k + 1,
                        goal,
                    ));
                    assert(tree_inv(order@, parent@, index@)) by {
                        assert forall|i: int| 0 <= i < order@.len() implies index@.contains_key(
                            #[trigger] order@[i],
                        ) && index@[order@[i]] == i by {
                            if i < n {
                                assert(old_index.contains_key(old_order[i]));
                            }
                        }
                        assert forall|w: u32| #[trigger] index@.contains_key(w) implies index@[w]
                            < order@.len() && order@[index@[w] as int] == w by {
                            if w != v {
                                assert(old_index.contains_key(w));
                            }
                        }
                    }
                    assert forall|i: int| 0 <= i < order@.len() implies reachable(
                        r,
                        start,
                        #[trigger] order@[i],
                    ) by {
                        if i < n {
                            assert(order@[i] == old_order[i]);
                        }
                    }
                    assert forall|i: int| 0 < i < order@.len() implies a.arc(
                        order@[parent@[i] as int],
                        #[trigger] order@[i],
                    ) by {
                        if i < n {
                            assert(order@[i] == old_order[i]);
                        }
                    }
                    assert forall|j: int, w: u32| 0 <= j < head && a.arc(#[trigger] order@[j], w) implies #[trigger] index@.contains_key(
                        w,
                    ) by {
                        assert(order@[j] == old_order[j]);
                        assert(old_index.contains_key(w));
                    }
                }
                if stop {
                    let t = SearchTree { order, parent, index, stopped: true };
                    proof {
                        let met = Trace {
                            order: t.order@,
                            parent: t.parent@.map_values(|x: usize| x as int),
                            done: true,
                        };
                        assert(goal == Some(v));
                        assert(scan(met, head as int, succ@, k + 1, goal) == met);
                        assert(sweep(f, met, head + 1, goal, (0x1_0000_0000 - head) as nat) == met);
                        assert(t@ == met);
                        assert(t@ == whole);
                        assert forall|x: u32, y: u32| #[trigger] t.link(x, y) implies a.arc(x, y) by {
                            let i = choose|i: int|
                                0 < i < t.order@.len() && #[trigger] t.order@[i] == y && t.order@[t.parent@[i] as int]
                                    == x;
                            assert(a.arc(t.order@[t.parent@[i] as int], t.order@[i]));
                        }
                        assert forall|w: u32| #[trigger] t.visited(w) implies reachable(r, start, w) by {
                            assert(t.order@[t.index@[w] as int] == w);
                        }
                        assert(t.order@[0] == start);
                        assert(t.index@.contains_key(t.order@[0]));
                        t.lemma_view();
                        assert forall|w: u32, q: Seq<u32>|
                            t.visited(w) && #[trigger] walk_between(r, q, start, w) implies way(t@, w).len()
                            <= q.len() by {
                            assert(t.order@[t.index@[w] as int] == w);
                            assert forall|i: int| 0 < i < t@.order.len() implies #[trigger] level[i] == level[t@.parent[i]]
                                + 1 by {
                                assert(level[i] == level[t.parent@[i] as int] + 1);
                            }
                            lemma_ways_are_shortest(r, t@, level, head as int, w, q);
                        }
                    }
                    return t;
                }
            }
            k += 1;
        }
        proof {
            assert forall|j: int, v: u32| 0 <= j < head + 1 && a.arc(#[trigger] order@[j], v) implies #[trigger] index@.contains_key(
                v,
            ) by {
                if j == head {
                    assert(succ@.contains(v));
                    let i = choose|i: int| 0 <= i < succ@.len() && succ@[i] == v;
                    assert(index@.contains_key(succ@[i]));
                }
            }
            assert(levelled(r, order@, level, head + 1)) by {
                assert forall|i: int| 0 <= i < order@.len() && head + 1 < order@.len() implies #[trigger] level[i]
                    <= level[head + 1] + 1 by {
                    assert(level[i] <= level[head as int] + 1);
                    assert(level[head as int] <= level[head + 1]);
                }
                assert forall|j: int, w: u32| 0 <= j < head + 1 && #[trigger] r(order@[j], w) implies exists|i: int|
                    0 <= i < order@.len() && #[trigger] order@[i] == w && level[i] <= level[j] + 1 by {
                    if j == head {
                        assert(a.arc(order@[j], w));
                        assert(index@.contains_key(w));
                        let i = index@[w] as int;
                        assert(order@[i] == w);
                        assert(level[i] <= level[head as int] + 1);
                    }
                }
            }
        }
        head += 1;
    }
    let t = SearchTree { order, parent, index, stopped: false };
    proof {
        assert(t@ == whole);
        assert forall|x: u32, y: u32| #[trigger] t.link(x, y) implies a.arc(x, y) by {
            let i = choose|i: int|
                0 < i < t.order@.len() && #[trigger] t.order@[i] == y && t.order@[t.parent@[i] as int] == x;
            assert(a.arc(t.order@[t.parent@[i] as int], t.order@[i]));
        }
        assert forall|w: u32| #[trigger] t.visited(w) implies reachable(r, start, w) by {
            assert(t.order@[t.index@[w] as int] == w);
        }
        assert(t.order@[0] == start);
        assert(t.index@.contains_key(t.order@[0]));
        let s = t.index@.dom();
        assert forall|x: u32, y: u32| s.contains(x) && #[trigger] r(x, y) implies s.contains(y) by {
            let j = t.index@[x] as int;
            assert(t.order@[j] == x);
            assert(a.arc(t.order@[j], y));
        }
        assert forall|v: u32| #[trigger] reachable(r, start, v) implies t.visited(v) by {
            lemma_closed_holds_reachable(r, s, start, v);
        }
        t.lemma_view();
        assert forall|w: u32, q: Seq<u32>| t.visited(w) && #[trigger] walk_between(r, q, start, w) implies way(
            t@,
            w,
        ).len() <= q.len() by {
            assert(t.order@[t.index@[w] as int] == w);
            assert forall|i: int| 0 < i < t@.order.len() implies #[trigger] level[i] == level[t@.parent[i]] + 1 by {
                assert(level[i] == level[t.parent@[i] as int] + 1);
            }
            lemma_ways_are_shortest(r, t@, level, head as int, w, q);
        }
    }
    t
}

} // verus!
