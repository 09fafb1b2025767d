//! The out-edges of one node: a sequence of edges with pairwise distinct targets.

use vstd::prelude::*;
use crate::error::{GraphError, GraphKindError};
use crate::node::Edge;

verus! {

/// No two edges of `s` lead to the same node.
pub open spec fn distinct_targets<T>(s: Seq<Edge<T>>) -> bool {
    forall|i: int, j: int| 0 <= i < j < s.len() ==> (#[trigger] s[i]).target() != (#[trigger] s[j]).target()
}

/// Some edge of `s` leads to `v`.
pub open spec fn has_target<T>(s: Seq<Edge<T>>, v: u32) -> bool {
    exists|i: int| 0 <= i < s.len() && (#[trigger] s[i]).target() == v
}

/// The place in `s` of an edge that leads to `v`, where there is one.
pub open spec fn target_index<T>(s: Seq<Edge<T>>, v: u32) -> int {
    choose|i: int| 0 <= i < s.len() && (#[trigger] s[i]).target() == v
}

/// The edge of `s` that leads to `v`, where there is one.
pub open spec fn edge_to<T>(s: Seq<Edge<T>>, v: u32) -> Edge<T> {
    s[target_index(s, v)]
}

/// `s` with `e` put in: in the place of the edge to the same target, or at the end.
pub open spec fn upsert<T>(s: Seq<Edge<T>>, e: Edge<T>) -> Seq<Edge<T>> {
    if has_target(s, e.target()) {
        s.update(target_index(s, e.target()), e)
    } else {
        s.push(e)
    }
}

/// `s` without its edge to `v`.
pub open spec fn without<T>(s: Seq<Edge<T>>, v: u32) -> Seq<Edge<T>> {
    if has_target(s, v) {
        s.remove(target_index(s, v))
    } else {
        s
    }
}

/// In a sequence with distinct targets, the edge to a target stands at one place only.
pub proof fn lemma_target_index_unique<T>(s: Seq<Edge<T>>, i: int)
    requires
        distinct_targets(s),
        0 <= i < s.len(),
    ensures
        has_target(s, s[i].target()),
        target_index(s, s[i].target()) == i,
        edge_to(s, s[i].target()) == s[i],
{
    let v = s[i].target();
    let j = target_index(s, v);
    assert(0 <= j < s.len() && s[j].target() == v);
    if j < i {
        assert(s[j].target() != s[i].target());
    } else if i < j {
        assert(s[i].target() != s[j].target());
    }
}

/// What `upsert` holds: every old target and the new one, each once, the new edge under its
/// target and the others unchanged.
pub proof fn lemma_upsert<T>(s: Seq<Edge<T>>, e: Edge<T>)
    requires
        distinct_targets(s),
    ensures
        distinct_targets(upsert(s, e)),
        forall|v: u32| has_target(upsert(s, e), v) <==> (has_target(s, v) || v == e.target()),
        edge_to(upsert(s, e), e.target()) == e,
        forall|v: u32| has_target(s, v) && v != e.target() ==> edge_to(upsert(s, e), v) == edge_to(s, v),
        upsert(s, e).len() == if has_target(s, e.target()) { s.len() } else { s.len() + 1 },
{
    let r = upsert(s, e);
    let t = e.target();
    let k = if has_target(s, t) { target_index(s, t) } else { s.len() as int };
    assert(0 <= k < r.len() && r[k] == e);
    assert forall|i: int| 0 <= i < r.len() && i != k implies r[i] == s[i] && s[i].target() != t by {
        if has_target(s, t) {
            lemma_target_index_unique(s, i);
        }
    }
    assert(distinct_targets(r)) by {
        assert forall|i: int, j: int| 0 <= i < j < r.len() implies (#[trigger] r[i]).target() != (#[trigger] r[j]).target() by {
            if i != k && j != k {
                assert(s[i].target() != s[j].target());
            }
        }
    }
    assert forall|v: u32| has_target(r, v) <==> (has_target(s, v) || v == t) by {
        if has_target(r, v) {
            let i = target_index(r, v);
            if i != k {
                assert(s[i].target() == v);
            }
        }
        if has_target(s, v) && v != t {
            let i = target_index(s, v);
            assert(r[i].target() == v);
        }
        if v == t {
            assert(r[k].target() == v);
        }
    }
    lemma_target_index_unique(r, k);
    assert forall|v: u32| has_target(s, v) && v != t implies edge_to(r, v) == edge_to(s, v) by {
        let i = target_index(s, v);
        assert(r[i] == s[i]);
        lemma_target_index_unique(r, i);
    }
}

/// Of two edges to the same target that are put in one after the other, only the second
/// stays: the adjacency is what it would be had the first never come.
pub proof fn lemma_latest_edge_stays<T>(s: Seq<Edge<T>>, first: Edge<T>, second: Edge<T>)
    requires
        distinct_targets(s),
        first.target() == second.target(),
    ensures
        upsert(upsert(s, first), second) == upsert(s, second),
        upsert(upsert(s, first), second).len() == upsert(s, first).len(),
        edge_to(upsert(upsert(s, first), second), second.target()) == second,
        distinct_targets(upsert(upsert(s, first), second)),
{
    let t = first.target();
    let one = upsert(s, first);
    lemma_upsert(s, first);
    lemma_upsert(one, second);
    lemma_upsert(s, second);
    let k = if has_target(s, t) { target_index(s, t) } else { s.len() as int };
    assert(0 <= k < one.len() && one[k] == first);
    lemma_target_index_unique(one, k);
    assert(target_index(one, t) == k);
    assert(upsert(one, second) =~= upsert(s, second));
}

/// What `without` holds: every old edge but the one to `v`, unchanged.
pub proof fn lemma_without<T>(s: Seq<Edge<T>>, v: u32)
    requires
        distinct_targets(s),
    ensures
        distinct_targets(without(s, v)),
        !has_target(without(s, v), v),
        forall|w: u32| w != v ==> (has_target(without(s, v), w) <==> has_target(s, w)),
        forall|w: u32| has_target(s, w) && w != v ==> edge_to(without(s, v), w) == edge_to(s, w),
        without(s, v).len() == if has_target(s, v) { s.len() - 1 } else { s.len() as int },
{
    let r = without(s, v);
    if has_target(s, v) {
        let k = target_index(s, v);
        assert forall|i: int| 0 <= i < r.len() implies r[i] == s[if i < k { i } else { i + 1 }] by {}
        assert(distinct_targets(r)) by {
            assert forall|i: int, j: int| 0 <= i < j < r.len() implies (#[trigger] r[i]).target() != (#[trigger] r[j]).target() by {
                let a = if i < k { i } else { i + 1 };
                let b = if j < k { j } else { j + 1 };
                assert(s[a].target() != s[b].target());
            }
        }
        assert(!has_target(r, v)) by {
            if has_target(r, v) {
                let i = target_index(r, v);
                let a = if i < k { i } else { i + 1 };
                lemma_target_index_unique(s, a);
            }
        }
        assert forall|w: u32| w != v implies (has_target(r, w) <==> has_target(s, w)) by {
            if has_target(r, w) {
                let i = target_index(r, w);
                let a = if i < k { i } else { i + 1 };
                assert(s[a].target() == w);
            }
            if has_target(s, w) {
                let a = target_index(s, w);
                let i = if a < k { a } else { a - 1 };
                assert(r[i].target() == w);
            }
        }
        assert forall|w: u32| has_target(s, w) && w != v implies edge_to(r, w) == edge_to(s, w) by {
            let a = target_index(s, w);
            let i = if a < k { a } else { a - 1 };
            assert(r[i] == s[a]);
            lemma_target_index_unique(r, i);
        }
    }
}

/// The out-edges of one node.
#[derive(Debug)]
pub struct Adjacency<T> {
    edges: Vec<Edge<T>>,
}

impl<T> View for Adjacency<T> {
    type V = Seq<Edge<T>>;

    /// The edges, in the order in which their targets first came in.
    closed spec fn view(&self) -> Seq<Edge<T>> {
        self.edges@
    }
}

impl<T> Adjacency<T> {
    /// No two edges lead to the same node.
    pub open spec fn wf(&self) -> bool {
        distinct_targets(self@)
    }

    /// An adjacency that holds `edge` alone.
    pub fn new(edge: Edge<T>) -> (a: Self)
        ensures
            a@ == seq![edge],
            a.wf(),
    {
        let mut edges: Vec<Edge<T>> = Vec::new();
        edges.push(edge);
        Self { edges }
    }

    /// An adjacency without edges.
    pub fn empty() -> (a: Self)
        ensures
            a@ == Seq::<Edge<T>>::empty(),
            a.wf(),
    {
        Self { edges: Vec::new() }
    }

    /// The number of edges.
    pub fn len(&self) -> (n: usize)
        ensures
            n == self@.len(),
    {
        self.edges.len()
    }

    /// The edge at place `i`.
    pub fn edge(&self, i: usize) -> (e: &Edge<T>)
        requires
            i < self@.len(),
        ensures
            *e == self@[i as int],
    {
        &self.edges[i]
    }

    /// The place of the edge to `target`.
    pub fn position(&self, target: u32) -> (r: Option<usize>)
        requires
            self.wf(),
        ensures
            r is Some <==> has_target(self@, target),
            r matches Some(i) ==> i == target_index(self@, target) && i < self@.len(),
    {
        let mut i: usize = 0;
        while i < self.edges.len()
            invariant
                i <= self.edges@.len(),
                self.wf(),
                forall|j: int| 0 <= j < i ==> (#[trigger] self.edges@[j]).target() != target,
            decreases self.edges@.len() - i,
        {
            if self.edges[i].node.number == target {
                proof {
                    lemma_target_index_unique(self@, i as int);
                }
                return Some(i);
            }
            i += 1;
        }
        None
    }

    /// The edge to `target`.
    pub fn get(&self, target: u32) -> (r: Option<&Edge<T>>)
        requires
            self.wf(),
        ensures
            r is Some <==> has_target(self@, target),
            r matches Some(e) ==> *e == edge_to(self@, target),
    {
        match self.position(target) {
            Some(i) => Some(&self.edges[i]),
            None => None,
        }
    }

    /// Whether the adjacency holds the same edge as `edge`: one to the same target.
    pub fn contains(&self, edge: &Edge<T>) -> (b: bool)
        requires
            self.wf(),
        ensures
            b == has_target(self@, edge.target()),
    {
        self.position(edge.node.number).is_some()
    }

    /// The targets of the edges, in the order of the edges.
    pub fn targets(&self) -> (r: Vec<u32>)
        ensures
            r@.len() == self@.len(),
            forall|i: int| 0 <= i < r@.len() ==> #[trigger] r@[i] == self@[i].target(),
    {
        let mut r: Vec<u32> = Vec::new();
        let mut i: usize = 0;
        while i < self.edges.len()
            invariant
                i <= self.edges@.len(),
                r@.len() == i,
                forall|j: int| 0 <= j < i ==> #[trigger] r@[j] == self.edges@[j].target(),
            decreases self.edges@.len() - i,
        {
            r.push(self.edges[i].node.number);
            i += 1;
        }
        r
    }

    /// Puts `edge` in, in the place of the edge to the same target if there is one.
    pub fn push(&mut self, edge: Edge<T>)
        requires
            old(self).wf(),
        ensures
            final(self)@ == upsert(old(self)@, edge),
            final(self).wf(),
    {
        proof {
            lemma_upsert(self@, edge);
        }
        match self.position(edge.node.number) {
            Some(i) => {
                self.edges.set(i, edge);
            },
            None => {
                self.edges.push(edge);
            },
        }
    }

    /// Takes out the edge to `target`, if there is one, and returns it.
    pub fn take(&mut self, target: u32) -> (r: Option<Edge<T>>)
        requires
            old(self).wf(),
        ensures
            final(self)@ == without(old(self)@, target),
            final(self).wf(),
            r is Some <==> has_target(old(self)@, target),
            r matches Some(e) ==> e == edge_to(old(self)@, target),
    {
        proof {
            lemma_without(self@, target);
        }
        match self.position(target) {
            Some(i) => Some(self.edges.remove(i)),
            None => None,
        }
    }

    /// Takes out the edge to `target` and returns it; `NodeNotFound` where there is none.
    pub fn delete(&mut self, target: u32) -> (r: Result<Option<Edge<T>>, GraphError>)
        requires
            old(self).wf(),
        ensures
            final(self).wf(),
            r is Ok <==> has_target(old(self)@, target),
            r matches Ok(o) ==> o == Some(edge_to(old(self)@, target)) && final(self)@ == without(
                old(self)@,
                target,
            ),
            r matches Err(e) ==> e.spec_kind() == GraphKindError::NodeNotFound && final(self)@ == old(
                self,
            )@,
    {
        match self.take(target) {
            Some(e) => Ok(Some(e)),
            None => Err(GraphError::new(GraphKindError::NodeNotFound, "")),
        }
    }

    /// An adjacency that holds the edges of `edges`, or `None` where two of them lead to the
    /// same node.
    pub fn from_edges(edges: Vec<Edge<T>>) -> (r: Option<Self>)
        ensures
            r is Some <==> distinct_targets(edges@),
            r matches Some(a) ==> a@ == edges@ && a.wf(),
    {
        let mut i: usize = 0;
        while i < edges.len()
            invariant
                i <= edges@.len(),
                forall|a: int, b: int| 0 <= a < b < i ==> (#[trigger] edges@[a]).target() != (#[trigger] edges@[b]).target(),
            decreases edges@.len() - i,
        {
            let mut k: usize = 0;
            while k < i
                invariant
                    k <= i,
                    i < edges@.len(),
                    forall|a: int| 0 <= a < k ==> (#[trigger] edges@[a]).target() != edges@[i as int].target(),
                decreases i - k,
            {
                if edges[k].node.number == edges[i].node.number {
                    proof {
                        assert(edges@[k as int].target() == edges@[i as int].target());
                    }
                    return None;
                }
                k += 1;
            }
            i += 1;
        }
        Some(Self { edges })
    }

    /// The edges, in order.
    pub fn into_edges(self) -> (r: Vec<Edge<T>>)
        ensures
            r@ == self@,
    {
        self.edges
    }

    /// A cursor over the edges, from the first.
    pub fn iter(&self) -> (it: AdjacencyIter<'_, T>)
        ensures
            it.source() == self@,
            it.pos() == 0,
    {
        AdjacencyIter { inner: self, pos: 0 }
    }
}

impl<T> Default for Adjacency<T> {
    fn default() -> (a: Self)
        ensures
            a@ == Seq::<Edge<T>>::empty(),
            a.wf(),
    {
        Self { edges: Vec::new() }
    }
}

impl<T: Clone> Clone for Adjacency<T> {
    fn clone(&self) -> (a: Self)
        ensures
            a@.len() == self@.len(),
            forall|i: int| 0 <= i < self@.len() ==> crate::node::edge_cloned(self@[i], #[trigger] a@[i]),
            self.wf() ==> a.wf(),
    {
        let mut edges: Vec<Edge<T>> = Vec::new();
        let mut i: usize = 0;
        while i < self.edges.len()
            invariant
                i <= self.edges@.len(),
                edges@.len() == i,
                forall|j: int| 0 <= j < i ==> crate::node::edge_cloned(self.edges@[j], #[trigger] edges@[j]),
            decreases self.edges@.len() - i,
        {
            edges.push(self.edges[i].clone());
            i += 1;
        }
        let a = Self { edges };
        proof {
            if self.wf() {
                assert forall|i: int, j: int| 0 <= i < j < a@.len() implies (#[trigger] a@[i]).target() != (#[trigger] a@[j]).target() by {
                    assert(crate::node::edge_cloned(self@[i], a@[i]));
                    assert(crate::node::edge_cloned(self@[j], a@[j]));
                    assert(self@[i].target() != self@[j].target());
                }
            }
        }
        a
    }
}

/// A cursor over the edges of one adjacency.
pub struct AdjacencyIter<'a, T> {
    inner: &'a Adjacency<T>,
    pos: usize,
}

impl<'a, T> AdjacencyIter<'a, T> {
    /// The edges that the cursor walks.
    pub closed spec fn source(&self) -> Seq<Edge<T>> {
        self.inner@
    }

    /// How many edges the cursor has handed out.
    pub closed spec fn pos(&self) -> int {
        self.pos as int
    }

    /// Hands out the next edge, or `None` when all have been handed out.
    pub fn next(&mut self) -> (r: Option<&'a Edge<T>>)
        requires
            old(self).pos() <= old(self).source().len(),
        ensures
            final(self).source() == old(self).source(),
            final(self).pos() <= final(self).source().len(),
            old(self).pos() < old(self).source().len() ==> r == Some(&old(self).source()[old(self).pos()])
                && final(self).pos() == old(self).pos() + 1,
            old(self).pos() >= old(self).source().len() ==> r is None && final(self).pos() == old(
                self,
            ).pos(),
    {
        if self.pos < self.inner.edges.len() {
            let e = &self.inner.edges[self.pos];
            self.pos = self.pos + 1;
            Some(e)
        } else {
            None
        }
    }
}

} // verus!
