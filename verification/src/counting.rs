//! Counting the members of a sequence without repetition that have a property.

use vstd::prelude::*;
use vstd::relations::injective_on;
use vstd::set_lib::{lemma_len_subset, lemma_map_size, lemma_set_disjoint_lens, FiniteRange};
use crate::paths::Relation;

verus! {

/// A property of node ids.
pub type Property = spec_fn(u32) -> bool;

/// The members of the first `k` places of `s` that have the property `p`.
pub open spec fn chosen(s: Seq<u32>, k: int, p: Property) -> Set<u32> {
    Set::new(|u: u32| p(u) && exists|j: int| 0 <= j < k && j < s.len() && #[trigger] s[j] == u)
}

/// Among no places nothing is chosen.
pub proof fn lemma_chosen_none(s: Seq<u32>, p: Property)
    ensures
        chosen(s, 0, p) == Set::<u32>::empty(),
        chosen(s, 0, p).finite(),
        chosen(s, 0, p).len() == 0,
{
    assert(chosen(s, 0, p) =~= Set::<u32>::empty());
}

/// One place more adds its member where the member has the property, and nothing else.
pub proof fn lemma_chosen_step(s: Seq<u32>, k: int, p: Property)
    requires
        s.no_duplicates(),
        0 <= k < s.len(),
        chosen(s, k, p).finite(),
    ensures
        chosen(s, k + 1, p).finite(),
        !chosen(s, k, p).contains(s[k]),
        chosen(s, k + 1, p).len() == chosen(s, k, p).len() + (if p(s[k]) { 1int } else { 0 }),
{
    let a = chosen(s, k, p);
    let b = chosen(s, k + 1, p);
    if a.contains(s[k]) {
        let j = choose|j: int| 0 <= j < k && j < s.len() && #[trigger] s[j] == s[k];
        assert(false);
    }
    if p(s[k]) {
        assert(b =~= a.insert(s[k])) by {
            assert forall|u: u32| b.contains(u) <==> a.insert(s[k]).contains(u) by {
                if b.contains(u) {
                    let j = choose|j: int| 0 <= j < k + 1 && j < s.len() && #[trigger] s[j] == u;
                    if j < k {
                        assert(a.contains(u));
                    }
                }
                if a.contains(u) {
                    let j = choose|j: int| 0 <= j < k && j < s.len() && #[trigger] s[j] == u;
                    assert(0 <= j < k + 1 && s[j] == u);
                }
                if u == s[k] {
                    assert(0 <= k < k + 1 && s[k] == u);
                }
            }
        }
    } else {
        assert(b =~= a) by {
            assert forall|u: u32| b.contains(u) <==> a.contains(u) by {
                if b.contains(u) {
                    let j = choose|j: int| 0 <= j < k + 1 && j < s.len() && #[trigger] s[j] == u;
                    assert(j < k);
                }
                if a.contains(u) {
                    let j = choose|j: int| 0 <= j < k && j < s.len() && #[trigger] s[j] == u;
                    assert(0 <= j < k + 1 && s[j] == u);
                }
            }
        }
    }
}

/// Among all places, what is chosen is what has the property and stands in the sequence.
pub proof fn lemma_chosen_all(s: Seq<u32>, p: Property)
    ensures
        chosen(s, s.len() as int, p) == Set::new(|u: u32| p(u) && s.contains(u)),
{
    assert(chosen(s, s.len() as int, p) =~= Set::new(|u: u32| p(u) && s.contains(u)));
}

/// A set of ids has at most 2^32 members.
pub proof fn lemma_ids_bound(s: Set<u32>)
    ensures
        s.finite(),
        s.len() <= 0x1_0000_0000,
{
    let low = Set::<u32>::new(|x: u32| 0 <= x < u32::MAX);
    let all = low.insert(u32::MAX);
    <u32 as FiniteRange>::range_properties(0, u32::MAX);
    assert(<u32 as FiniteRange>::range_set(0, u32::MAX) =~= low);
    assert(s.subset_of(all));
    lemma_len_subset(s, all);
}

/// A set of ids that lacks some id has fewer than 2^32 members.
pub proof fn lemma_ids_without_one(s: Set<u32>, v: u32)
    requires
        !s.contains(v),
    ensures
        s.finite(),
        s.len() <= 0xFFFF_FFFF,
{
    let low = Set::<u32>::new(|x: u32| 0 <= x < u32::MAX);
    let all = low.insert(u32::MAX);
    <u32 as FiniteRange>::range_properties(0, u32::MAX);
    assert(<u32 as FiniteRange>::range_set(0, u32::MAX) =~= low);
    assert(all.len() == 0x1_0000_0000);
    assert(all.contains(v));
    assert(s.subset_of(all.remove(v)));
    lemma_len_subset(s, all.remove(v));
}

/// The pairs of the relation `q` that start at one of the first `k` places of `s`.
pub open spec fn pairs(s: Seq<u32>, k: int, q: Relation) -> Set<(u32, u32)> {
    Set::new(|e: (u32, u32)| q(e.0, e.1) && exists|j: int| 0 <= j < k && j < s.len() && #[trigger] s[j] == e.0)
}

/// The ids to which `u` stands in the relation `q`.
pub open spec fn row(u: u32, q: Relation) -> Set<u32> {
    Set::new(|v: u32| q(u, v))
}

/// From no place no pair starts.
pub proof fn lemma_pairs_none(s: Seq<u32>, q: Relation)
    ensures
        pairs(s, 0, q).finite(),
        pairs(s, 0, q).len() == 0,
{
    assert(pairs(s, 0, q) =~= Set::<(u32, u32)>::empty());
}

/// One place more adds the pairs that start at its member.
pub proof fn lemma_pairs_step(s: Seq<u32>, k: int, q: Relation)
    requires
        s.no_duplicates(),
        0 <= k < s.len(),
        pairs(s, k, q).finite(),
        row(s[k], q).finite(),
    ensures
        pairs(s, k + 1, q).finite(),
        pairs(s, k + 1, q).len() == pairs(s, k, q).len() + row(s[k], q).len(),
{
    let u = s[k];
    let a = pairs(s, k, q);
    let b = pairs(s, k + 1, q);
    let f = |v: u32| (u, v);
    let added = row(u, q).map(f);
    assert(injective_on(f, row(u, q)));
    lemma_map_size(row(u, q), added, f);
    assert(a.disjoint(added)) by {
        assert forall|e: (u32, u32)| !(a.contains(e) && added.contains(e)) by {
            if a.contains(e) && added.contains(e) {
                let j = choose|j: int| 0 <= j < k && j < s.len() && #[trigger] s[j] == e.0;
                let v = choose|v: u32| row(u, q).contains(v) && e == f(v);
                assert(s[j] == s[k]);
            }
        }
    }
    assert(b =~= a + added) by {
        assert forall|e: (u32, u32)| b.contains(e) <==> (a + added).contains(e) by {
            if b.contains(e) {
                let j = choose|j: int| 0 <= j < k + 1 && j < s.len() && #[trigger] s[j] == e.0;
                if j < k {
                    assert(a.contains(e));
                } else {
                    assert(row(u, q).contains(e.1));
                    assert(e == f(e.1));
                    assert(added.contains(e));
                }
            }
            if a.contains(e) {
                let j = choose|j: int| 0 <= j < k && j < s.len() && #[trigger] s[j] == e.0;
                assert(0 <= j < k + 1 && s[j] == e.0);
            }
            if added.contains(e) {
                let v = choose|v: u32| row(u, q).contains(v) && e == f(v);
                assert(0 <= k < k + 1 && s[k] == e.0);
            }
        }
    }
    lemma_set_disjoint_lens(a, added);
}

/// From all places start the pairs whose first member stands in the sequence.
pub proof fn lemma_pairs_all(s: Seq<u32>, q: Relation)
    ensures
        pairs(s, s.len() as int, q) == Set::new(|e: (u32, u32)| q(e.0, e.1) && s.contains(e.0)),
{
    assert(pairs(s, s.len() as int, q) =~= Set::new(|e: (u32, u32)| q(e.0, e.1) && s.contains(e.0)));
}

} // verus!
