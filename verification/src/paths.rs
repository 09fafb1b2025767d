//! Walks and reachability over a relation between node ids.

use vstd::prelude::*;
use vstd::set_lib::{lemma_len_subset, FiniteRange};

verus! {

/// A relation between node ids: which arcs there are.
pub type Relation = spec_fn(u32, u32) -> bool;

/// `p` is a walk: a sequence of at least one node in which each leads to the next by an arc.
pub open spec fn is_walk(r: Relation, p: Seq<u32>) -> bool {
    &&& p.len() >= 1
    &&& forall|i: int| 0 <= i < p.len() - 1 ==> r(#[trigger] p[i], p[i + 1])
}

/// `p` is a walk from `a` to `b`.
pub open spec fn walk_between(r: Relation, p: Seq<u32>, a: u32, b: u32) -> bool {
    is_walk(r, p) && p[0] == a && p[p.len() - 1] == b
}

/// Some walk leads from `a` to `b`. Every node reaches itself.
pub open spec fn reachable(r: Relation, a: u32, b: u32) -> bool {
    exists|p: Seq<u32>| #[trigger] walk_between(r, p, a, b)
}

/// Some walk with at least one arc leads from `a` back to `a`.
pub open spec fn on_cycle(r: Relation, a: u32) -> bool {
    exists|p: Seq<u32>| #[trigger] walk_between(r, p, a, a) && p.len() >= 2
}

/// The relation has a cycle.
pub open spec fn has_cycle(r: Relation) -> bool {
    exists|a: u32| #[trigger] on_cycle(r, a)
}

/// Every node reaches itself.
pub proof fn lemma_reach_self(r: Relation, a: u32)
    ensures
        reachable(r, a, a),
{
    assert(walk_between(r, seq![a], a, a));
}

/// A walk goes on by one arc.
pub proof fn lemma_walk_push(r: Relation, p: Seq<u32>, a: u32, b: u32, c: u32)
    requires
        walk_between(r, p, a, b),
        r(b, c),
    ensures
        walk_between(r, p.push(c), a, c),
{
    let q = p.push(c);
    assert forall|i: int| 0 <= i < q.len() - 1 implies r(#[trigger] q[i], q[i + 1]) by {
        if i < p.len() - 1 {
            assert(r(p[i], p[i + 1]));
        }
    }
}

/// What is reached goes on by one arc.
pub proof fn lemma_reach_step(r: Relation, a: u32, b: u32, c: u32)
    requires
        reachable(r, a, b),
        r(b, c),
    ensures
        reachable(r, a, c),
{
    let p = choose|p: Seq<u32>| #[trigger] walk_between(r, p, a, b);
    lemma_walk_push(r, p, a, b, c);
}

/// Two walks that meet make one.
pub proof fn lemma_walk_join(r: Relation, p: Seq<u32>, q: Seq<u32>, a: u32, b: u32, c: u32)
    requires
        walk_between(r, p, a, b),
        walk_between(r, q, b, c),
    ensures
        walk_between(r, p + q.subrange(1, q.len() as int), a, c),
{
    let w = p + q.subrange(1, q.len() as int);
    assert forall|i: int| 0 <= i < w.len() - 1 implies r(#[trigger] w[i], w[i + 1]) by {
        if i < p.len() - 1 {
            assert(r(p[i], p[i + 1]));
        } else {
            let j = i - p.len() + 1;
            assert(r(q[j], q[j + 1]));
        }
    }
}

/// Reachability is transitive.
pub proof fn lemma_reach_trans(r: Relation, a: u32, b: u32, c: u32)
    requires
        reachable(r, a, b),
        reachable(r, b, c),
    ensures
        reachable(r, a, c),
{
    let p = choose|p: Seq<u32>| #[trigger] walk_between(r, p, a, b);
    let q = choose|q: Seq<u32>| #[trigger] walk_between(r, q, b, c);
    lemma_walk_join(r, p, q, a, b, c);
}

/// A set that no arc leaves holds every node of a walk that starts in it.
pub proof fn lemma_walk_stays(r: Relation, s: Set<u32>, p: Seq<u32>, k: int)
    requires
        is_walk(r, p),
        s.contains(p[0]),
        forall|x: u32, y: u32| s.contains(x) && #[trigger] r(x, y) ==> s.contains(y),
        0 <= k < p.len(),
    ensures
        s.contains(p[k]),
    decreases k,
{
    if k > 0 {
        lemma_walk_stays(r, s, p, k - 1);
        assert(r(p[k - 1], p[k - 1 + 1]));
    }
}

/// A set that no arc leaves holds all that its members reach.
pub proof fn lemma_closed_holds_reachable(r: Relation, s: Set<u32>, a: u32, b: u32)
    requires
        s.contains(a),
        forall|x: u32, y: u32| s.contains(x) && #[trigger] r(x, y) ==> s.contains(y),
        reachable(r, a, b),
    ensures
        s.contains(b),
{
    let p = choose|p: Seq<u32>| #[trigger] walk_between(r, p, a, b);
    lemma_walk_stays(r, s, p, p.len() - 1);
}

/// A walk read backwards is a walk of the relation read backwards.
pub proof fn lemma_walk_reverse(r: Relation, q: Relation, p: Seq<u32>, a: u32, b: u32)
    requires
        walk_between(r, p, a, b),
        forall|x: u32, y: u32| #[trigger] r(x, y) ==> q(y, x),
    ensures
        walk_between(q, p.reverse(), b, a),
{
    let w = p.reverse();
    assert forall|i: int| 0 <= i < w.len() - 1 implies q(#[trigger] w[i], w[i + 1]) by {
        let j = p.len() - 2 - i;
        assert(r(p[j], p[j + 1]));
    }
}

/// Where every arc has its reverse, reachability goes both ways.
pub proof fn lemma_reach_symmetric(r: Relation, a: u32, b: u32)
    requires
        forall|x: u32, y: u32| #[trigger] r(x, y) ==> r(y, x),
        reachable(r, a, b),
    ensures
        reachable(r, b, a),
{
    let p = choose|p: Seq<u32>| #[trigger] walk_between(r, p, a, b);
    lemma_walk_reverse(r, r, p, a, b);
}

/// A walk of a relation is a walk of every relation that holds it.
pub proof fn lemma_walk_mono(r: Relation, q: Relation, p: Seq<u32>)
    requires
        is_walk(r, p),
        forall|x: u32, y: u32| #[trigger] r(x, y) ==> q(x, y),
    ensures
        is_walk(q, p),
{
    assert forall|i: int| 0 <= i < p.len() - 1 implies q(#[trigger] p[i], p[i + 1]) by {
        assert(r(p[i], p[i + 1]));
    }
}

/// A sequence of ids without repetition has at most 2^32 members.
pub proof fn lemma_distinct_ids_bound(s: Seq<u32>)
    requires
        s.no_duplicates(),
    ensures
        s.len() <= 0x1_0000_0000,
{
    let all = Set::<u32>::new(|x: u32| 0 <= x < u32::MAX).insert(u32::MAX);
    <u32 as FiniteRange>::range_properties(0, u32::MAX);
    assert(<u32 as FiniteRange>::range_set(0, u32::MAX) =~= Set::<u32>::new(|x: u32| 0 <= x < u32::MAX));
    assert(all.finite());
    assert(all.len() <= 0x1_0000_0000);
    assert(s.to_set().subset_of(all));
    lemma_len_subset(s.to_set(), all);
    s.unique_seq_to_set();
}

} // verus!
