//! Cycle detection by a depth-first search that colours the nodes.
//!
//! The colours live in a table that the caller owns and may hand from one search to the
//! next: what one search has finished, the next does not visit again.

use std::collections::HashMap;
use vstd::prelude::*;
use vstd::std_specs::hash::group_hash_axioms;
use crate::counting::lemma_ids_bound;
use crate::paths::{
    lemma_closed_holds_reachable, lemma_reach_self, lemma_reach_step, lemma_walk_push, lemma_walk_stays,
    on_cycle, reachable, walk_between, Relation,
};
use crate::search::{relation, Arcs};

verus! {

/// The state of a node during a depth-first search.
#[derive(Debug, Clone, Copy, PartialEq, Eq, Structural)]
pub enum ColorNode {
    /// Not visited yet.
    White,
    /// Visited, with some of its arcs still to follow.
    Gray,
    /// Finished: all that it reaches has been visited.
    Black,
}

/// The colour that `colors` gives to `v`: white where it has no entry.
pub open spec fn color_of(colors: Map<u32, ColorNode>, v: u32) -> ColorNode {
    if colors.contains_key(v) {
        colors[v]
    } else {
        ColorNode::White
    }
}

/// No arc leaves the black nodes, and no black node lies on a cycle.
pub open spec fn black_closed(r: Relation, colors: Map<u32, ColorNode>) -> bool {
    &&& forall|u: u32, v: u32|
        color_of(colors, u) == ColorNode::Black && #[trigger] r(u, v) ==> color_of(colors, v) == ColorNode::Black
    &&& forall|u: u32| color_of(colors, u) == ColorNode::Black ==> !#[trigger] on_cycle(r, u)
}

/// The colours are those that finished searches leave: no node is gray, no arc leaves the
/// black nodes, and no black node lies on a cycle.
pub open spec fn settled(r: Relation, colors: Map<u32, ColorNode>) -> bool {
    &&& forall|v: u32| #[trigger] color_of(colors, v) != ColorNode::Gray
    &&& black_closed(r, colors)
}

/// What `start` reaches holds a cycle.
pub open spec fn reaches_cycle(r: Relation, start: u32) -> bool {
    exists|c: u32| #[trigger] reachable(r, start, c) && on_cycle(r, c)
}

spec fn touched(colors: Map<u32, ColorNode>) -> Set<u32> {
    Set::new(|v: u32| color_of(colors, v) != ColorNode::White)
}

spec fn pending(lists: Seq<Vec<u32>>, nexts: Seq<usize>) -> int
    decreases lists.len(),
{
    if lists.len() == 0 || nexts.len() != lists.len() {
        0
    } else {
        pending(lists.drop_last(), nexts.drop_last()) + (lists.last()@.len() - nexts.last() + 1)
    }
}

spec fn stack_inv<A: Arcs>(
    a: &A,
    colors: Map<u32, ColorNode>,
    trail: Seq<u32>,
    lists: Seq<Vec<u32>>,
    nexts: Seq<usize>,
) -> bool {
    let r = relation(a);
    &&& lists.len() == trail.len()
    &&& nexts.len() == trail.len()
    &&& trail.no_duplicates()
    &&& forall|k: int| 0 <= k < trail.len() ==> color_of(colors, #[trigger] trail[k]) == ColorNode::Gray
    &&& forall|v: u32| #[trigger] color_of(colors, v) == ColorNode::Gray ==> trail.contains(v)
    &&& forall|m: int, k: int| 0 <= m <= k < trail.len() ==> reachable(r, #[trigger] trail[m], #[trigger] trail[k])
    &&& forall|k: int, v: u32|
        0 <= k < trail.len() ==> ((#[trigger] lists[k])@.contains(v) <==> #[trigger] a.arc(trail[k], v))
    &&& forall|k: int| 0 <= k < trail.len() ==> (#[trigger] nexts[k]) <= lists[k]@.len()
    &&& forall|k: int, j: int|
        0 <= k < trail.len() && 0 <= j < nexts[k] ==> color_of(colors, #[trigger] lists[k]@[j]) == ColorNode::Black
            || (k + 1 < trail.len() && lists[k]@[j] == trail[k + 1])
}

proof fn lemma_pending_push(lists: Seq<Vec<u32>>, nexts: Seq<usize>, l: Vec<u32>, n: usize)
    requires
        lists.len() == nexts.len(),
    ensures
        pending(lists.push(l), nexts.push(n)) == pending(lists, nexts) + (l@.len() - n + 1),
{
    assert(lists.push(l).drop_last() =~= lists);
    assert(nexts.push(n).drop_last() =~= nexts);
}

proof fn lemma_pending_top(lists: Seq<Vec<u32>>, nexts: Seq<usize>, n: usize)
    requires
        lists.len() == nexts.len(),
        lists.len() > 0,
    ensures
        pending(lists, nexts.update(nexts.len() - 1, n)) == pending(lists, nexts) + nexts.last() - n,
        pending(lists, nexts) == pending(lists.drop_last(), nexts.drop_last()) + (lists.last()@.len() - nexts.last()
            + 1),
{
    assert(nexts.update(nexts.len() - 1, n).drop_last() =~= nexts.drop_last());
}

proof fn lemma_pending_floor(lists: Seq<Vec<u32>>, nexts: Seq<usize>)
    requires
        lists.len() == nexts.len(),
        forall|k: int| 0 <= k < lists.len() ==> (#[trigger] nexts[k]) <= lists[k]@.len(),
    ensures
        pending(lists, nexts) >= lists.len(),
    decreases lists.len(),
{
    if lists.len() > 0 {
        assert forall|k: int| 0 <= k < lists.drop_last().len() implies (#[trigger] nexts.drop_last()[k])
            <= lists.drop_last()[k]@.len() by {
            assert(nexts[k] <= lists[k]@.len());
        }
        lemma_pending_floor(lists.drop_last(), nexts.drop_last());
        assert(nexts[nexts.len() - 1] <= lists[lists.len() - 1]@.len());
    }
}

/// Searches depth-first from `start` for a cycle, colouring what it visits. A black node is
/// not visited again.
///
/// Returns whether `start` reaches a cycle. Where it does not, every node that the search
/// visited is left black, `start` among them, and the colours are settled again.
pub fn cycle_from<A: Arcs>(a: &A, start: u32, colors: &mut HashMap<u32, ColorNode>) -> (found: bool)
    requires
        a.ready(),
        settled(relation(a), old(colors)@),
    ensures
        found == reaches_cycle(relation(a), start),
        !found ==> settled(relation(a), final(colors)@),
        !found ==> color_of(final(colors)@, start) == ColorNode::Black,
        !found ==> forall|v: u32|
            color_of(old(colors)@, v) == ColorNode::Black ==> #[trigger] color_of(final(colors)@, v)
                == ColorNode::Black,
        !found ==> forall|v: u32| #[trigger]
            color_of(final(colors)@, v) == if color_of(old(colors)@, v) == ColorNode::Black || reachable(
                relation(a),
                start,
                v,
            ) {
                ColorNode::Black
            } else {
                color_of(old(colors)@, v)
            },
{
    broadcast use group_hash_axioms;

    let ghost r = relation(a);
    let ghost before = colors@;
    let known = match colors.get(&start) {
        Some(c) => *c,
        None => ColorNode::White,
    };
    if known == ColorNode::Black {
        proof {
            let s = Set::new(|v: u32| color_of(before, v) == ColorNode::Black);
            assert(!reaches_cycle(r, start)) by {
                if reaches_cycle(r, start) {
                    let c = choose|c: u32| #[trigger] reachable(r, start, c) && on_cycle(r, c);
                    lemma_closed_holds_reachable(r, s, start, c);
                }
            }
            assert forall|v: u32| reachable(r, start, v) implies color_of(before, v) == ColorNode::Black by {
                lemma_closed_holds_reachable(r, s, start, v);
            }
        }
        return false;
    }
    proof {
        assert(color_of(before, start) != ColorNode::Gray);
    }
    let mut trail: Vec<u32> = Vec::new();
    let mut lists: Vec<Vec<u32>> = Vec::new();
    let mut nexts: Vec<usize> = Vec::new();
    colors.insert(start, ColorNode::Gray);
    let first = a.successors(start);
    proof {
        lemma_reach_self(r, start);
        lemma_pending_push(lists@, nexts@, first, 0);
    }
    trail.push(start);
    lists.push(first);
    nexts.push(0);
    proof {
        assert(trail@.contains(start)) by {
            assert(trail@[0] == start);
        }
        assert forall|v: u32| #[trigger] color_of(colors@, v) == ColorNode::Gray implies trail@.contains(v) by {
            if v != start {
                assert(color_of(before, v) != ColorNode::Gray);
            }
        }
        assert(black_closed(r, colors@)) by {
            assert forall|u: u32, v: u32|
                color_of(colors@, u) == ColorNode::Black && #[trigger] r(u, v) implies color_of(colors@, v)
                    == ColorNode::Black by {
                assert(color_of(before, u) == ColorNode::Black);
                assert(color_of(before, v) == ColorNode::Black);
                assert(v != start);
            }
            assert forall|u: u32| color_of(colors@, u) == ColorNode::Black implies !#[trigger] on_cycle(r, u) by {
                assert(color_of(before, u) == ColorNode::Black);
            }
        }
    }
    while trail.len() > 0
        invariant
            a.ready(),
            r == relation(a),
            stack_inv(a, colors@, trail@, lists@, nexts@),
            black_closed(r, colors@),
            trail@.len() > 0 ==> trail@[0] == start,
            trail@.len() == 0 ==> color_of(colors@, start) == ColorNode::Black,
            forall|v: u32|
                color_of(before, v) == ColorNode::Black ==> #[trigger] color_of(colors@, v) == ColorNode::Black,
            forall|v: u32| #[trigger] color_of(colors@, v) != color_of(before, v) ==> reachable(r, start, v),
        decreases 0x1_0000_0000 - touched(colors@).len(), pending(lists@, nexts@),
    {
        let top = trail.len() - 1;
        let u = trail[top];
        let n = nexts[top];
        let ghost c0 = colors@;
        let ghost t0 = trail@;
        let ghost l0 = lists@;
        let ghost n0 = nexts@;
        proof {
            lemma_ids_bound(touched(c0));
            lemma_pending_floor(l0, n0);
        }
        if n < lists[top].len() {
            let v = lists[top][n];
            let seen = match colors.get(&v) {
                Some(c) => *c,
                None => ColorNode::White,
            };
            proof {
                assert(l0[top as int]@.contains(v));
                assert(a.arc(t0[top as int], v));
                assert(r(u, v));
            }
            match seen {
                ColorNode::Gray => {
                    proof {
                        assert(t0.contains(v));
                        let m = choose|m: int| 0 <= m < t0.len() && t0[m] == v;
                        assert(reachable(r, t0[m], t0[top as int]));
                        let p = choose|p: Seq<u32>| #[trigger] walk_between(r, p, v, u);
                        lemma_walk_push(r, p, v, u, v);
                        assert(walk_between(r, p.push(v), v, v) && p.push(v).len() >= 2);
                        assert(on_cycle(r, v));
                        assert(reachable(r, t0[0], t0[m]));
                    }
                    return true;
                },
                ColorNode::Black => {
                    nexts.set(top, n + 1);
                    proof {
                        lemma_pending_top(l0, n0, (n + 1) as usize);
                        assert(nexts@ =~= n0.update(n0.len() - 1, (n + 1) as usize));
                        assert(stack_inv(a, colors@, trail@, lists@, nexts@)) by {
                            assert forall|k: int, j: int| 0 <= k < trail@.len() && 0 <= j < nexts@[k] implies color_of(
                                colors@,
                                #[trigger] lists@[k]@[j],
                            ) == ColorNode::Black || (k + 1 < trail@.len() && lists@[k]@[j] == trail@[k + 1]) by {
                                if k == top && j == n {
                                } else {
                                    assert(0 <= j < n0[k]);
                                }
                            }
                        }
                    }
                },
                ColorNode::White => {
                    let next_list = a.successors(v);
                    colors.insert(v, ColorNode::Gray);
                    nexts.set(top, n + 1);
                    proof {
                        assert(!c0.contains_key(v) || c0[v] == ColorNode::White);
                        assert(!t0.contains(v)) by {
                            if t0.contains(v) {
                                let m = choose|m: int| 0 <= m < t0.len() && t0[m] == v;
                                assert(color_of(c0, t0[m]) == ColorNode::Gray);
                            }
                        }
                        lemma_reach_self(r, v);
                        assert forall|m: int| 0 <= m < t0.len() implies reachable(r, #[trigger] t0[m], v) by {
                            assert(reachable(r, t0[m], t0[top as int]));
                            lemma_reach_step(r, t0[m], u, v);
                        }
                    }
                    trail.push(v);
                    lists.push(next_list);
                    nexts.push(0);
                    proof {
                        let n1 = n0.update(top as int, (n + 1) as usize);
                        lemma_pending_top(l0, n0, (n + 1) as usize);
                        lemma_pending_push(l0, n1, next_list, 0);
                        assert(touched(colors@) =~= touched(c0).insert(v));
                        assert(!touched(c0).contains(v));
                        lemma_ids_bound(touched(colors@));
                        assert(stack_inv(a, colors@, trail@, lists@, nexts@)) by {
                            assert forall|k: int| 0 <= k < trail@.len() implies color_of(colors@, #[trigger] trail@[k])
                                == ColorNode::Gray by {
                                if k < t0.len() {
                                    assert(color_of(c0, t0[k]) == ColorNode::Gray);
                                }
                            }
                            assert forall|w: u32| #[trigger] color_of(colors@, w) == ColorNode::Gray implies trail@.contains(
                                w,
                            ) by {
                                if w == v {
                                    assert(trail@[trail@.len() - 1] == v);
                                } else {
                                    assert(color_of(c0, w) == ColorNode::Gray);
                                    let m = choose|m: int| 0 <= m < t0.len() && t0[m] == w;
                                    assert(trail@[m] == w);
                                }
                            }
                            assert forall|m: int, k: int| 0 <= m <= k < trail@.len() implies reachable(
                                r,
                                #[trigger] trail@[m],
                                #[trigger] trail@[k],
                            ) by {
                                if k < t0.len() {
                                    assert(reachable(r, t0[m], t0[k]));
                                } else if m < t0.len() {
                                    assert(reachable(r, t0[m], v));
                                }
                            }
                            assert forall|k: int, w: u32| 0 <= k < trail@.len() implies ((#[trigger] lists@[k])@.contains(
                                w,
                            ) <==> #[trigger] a.arc(trail@[k], w)) by {
                                if k < t0.len() {
                                    assert(l0[k]@.contains(w) <==> a.arc(t0[k], w));
                                }
                            }
                            assert forall|k: int| 0 <= k < trail@.len() implies (#[trigger] nexts@[k]) <= lists@[k]@.len() by {
                                if k < t0.len() {
                                    assert(n0[k] <= l0[k]@.len());
                                }
                            }
                            assert forall|k: int, j: int| 0 <= k < trail@.len() && 0 <= j < nexts@[k] implies color_of(
                                colors@,
                                #[trigger] lists@[k]@[j],
                            ) == ColorNode::Black || (k + 1 < trail@.len() && lists@[k]@[j] == trail@[k + 1]) by {
                                if k == top && j == n {
                                } else {
                                    assert(0 <= j < n0[k]);
                                    assert(color_of(c0, l0[k]@[j]) == ColorNode::Black || (k + 1 < t0.len() && l0[k]@[j]
                                        == t0[k + 1]));
                                }
                            }
                        }
                        assert(black_closed(r, colors@)) by {
                            assert forall|x: u32, y: u32|
                                color_of(colors@, x) == ColorNode::Black && #[trigger] r(x, y) implies color_of(
                                    colors@,
                                    y,
                                ) == ColorNode::Black by {
                                assert(color_of(c0, x) == ColorNode::Black);
                                assert(color_of(c0, y) == ColorNode::Black);
                            }
                            assert forall|x: u32| color_of(colors@, x) == ColorNode::Black implies !#[trigger] on_cycle(
                                r,
                                x,
                            ) by {
                                assert(color_of(c0, x) == ColorNode::Black);
                            }
                        }
                        assert forall|w: u32| color_of(before, w) == ColorNode::Black implies #[trigger] color_of(
                            colors@,
                            w,
                        ) == ColorNode::Black by {
                            assert(color_of(c0, w) == ColorNode::Black);
                        }
                        assert forall|w: u32| #[trigger] color_of(colors@, w) != color_of(before, w) implies reachable(
                            r,
                            start,
                            w,
                        ) by {
                            if w == v {
                                assert(reachable(r, t0[0], v));
                            } else {
                                assert(color_of(c0, w) != color_of(before, w));
                            }
                        }
                    }
                },
            }
        } else {
            colors.insert(u, ColorNode::Black);
            trail.pop();
            lists.pop();
            nexts.pop();
            proof {
                lemma_pending_top(l0, n0, n);
                assert(lists@ =~= l0.drop_last());
                assert(nexts@ =~= n0.drop_last());
                assert(trail@ =~= t0.drop_last());
                assert(c0.contains_key(u)) by {
                    assert(color_of(c0, t0[top as int]) == ColorNode::Gray);
                }
                assert(touched(colors@) =~= touched(c0));
                let black0 = Set::new(|x: u32| color_of(c0, x) == ColorNode::Black);
                assert forall|y: u32| #[trigger] r(u, y) implies color_of(c0, y) == ColorNode::Black by {
                    assert(a.arc(t0[top as int], y));
                    assert(l0[top as int]@.contains(y));
                    let j = choose|j: int| 0 <= j < l0[top as int]@.len() && l0[top as int]@[j] == y;
                    assert(color_of(c0, l0[top as int]@[j]) == ColorNode::Black || (top + 1 < t0.len() && l0[top as int]@[j]
                        == t0[top + 1]));
                }
                assert(!on_cycle(r, u)) by {
                    if on_cycle(r, u) {
                        let p = choose|p: Seq<u32>| #[trigger] walk_between(r, p, u, u) && p.len() >= 2;
                        assert(r(p[0int], p[0int + 1]));
                        let q = p.subrange(1, p.len() as int);
                        assert(crate::paths::is_walk(r, q)) by {
                            assert forall|i: int| 0 <= i < q.len() - 1 implies r(#[trigger] q[i], q[i + 1]) by {
                                assert(r(p[i + 1], p[i + 1 + 1]));
                            }
                        }
                        assert(black0.contains(q[0]));
                        lemma_walk_stays(r, black0, q, q.len() - 1);
                        assert(q[q.len() - 1] == u);
                        assert(color_of(c0, t0[top as int]) == ColorNode::Gray);
                    }
                }
                assert(black_closed(r, colors@)) by {
                    assert forall|x: u32, y: u32|
                        color_of(colors@, x) == ColorNode::Black && #[trigger] r(x, y) implies color_of(colors@, y)
                            == ColorNode::Black by {
                        if x != u {
                            assert(color_of(c0, x) == ColorNode::Black);
                        }
                        assert(color_of(c0, y) == ColorNode::Black);
                    }
                    assert forall|x: u32| color_of(colors@, x) == ColorNode::Black implies !#[trigger] on_cycle(r, x) by {
                        if x != u {
                            assert(color_of(c0, x) == ColorNode::Black);
                        }
                    }
                }
                assert(stack_inv(a, colors@, trail@, lists@, nexts@)) by {
                    assert forall|k: int| 0 <= k < trail@.len() implies color_of(colors@, #[trigger] trail@[k])
                        == ColorNode::Gray by {
                        assert(t0[k] != t0[top as int]);
                        assert(color_of(c0, t0[k]) == ColorNode::Gray);
                    }
                    assert forall|w: u32| #[trigger] color_of(colors@, w) == ColorNode::Gray implies trail@.contains(w) by {
                        assert(color_of(c0, w) == ColorNode::Gray);
                        let m = choose|m: int| 0 <= m < t0.len() && t0[m] == w;
                        assert(m != top);
                        assert(trail@[m] == w);
                    }
                    assert forall|m: int, k: int| 0 <= m <= k < trail@.len() implies reachable(
                        r,
                        #[trigger] trail@[m],
                        #[trigger] trail@[k],
                    ) by {
                        assert(reachable(r, t0[m], t0[k]));
                    }
                    assert forall|k: int, w: u32| 0 <= k < trail@.len() implies ((#[trigger] lists@[k])@.contains(w)
                        <==> #[trigger] a.arc(trail@[k], w)) by {
                        assert(l0[k]@.contains(w) <==> a.arc(t0[k], w));
                    }
                    assert forall|k: int| 0 <= k < trail@.len() implies (#[trigger] nexts@[k]) <= lists@[k]@.len() by {
                        assert(n0[k] <= l0[k]@.len());
                    }
                    assert forall|k: int, j: int| 0 <= k < trail@.len() && 0 <= j < nexts@[k] implies color_of(
                        colors@,
                        #[trigger] lists@[k]@[j],
                    ) == ColorNode::Black || (k + 1 < trail@.len() && lists@[k]@[j] == trail@[k + 1]) by {
                        assert(color_of(c0, l0[k]@[j]) == ColorNode::Black || (k + 1 < t0.len() && l0[k]@[j] == t0[k
                            + 1]));
                    }
                }
                assert forall|w: u32| color_of(before, w) == ColorNode::Black implies #[trigger] color_of(colors@, w)
                    == ColorNode::Black by {
                    assert(color_of(c0, w) == ColorNode::Black);
                }
                assert forall|w: u32| #[trigger] color_of(colors@, w) != color_of(before, w) implies reachable(
                    r,
                    start,
                    w,
                ) by {
                    if w == u {
                        assert(reachable(r, t0[0], t0[top as int]));
                    } else {
                        assert(color_of(c0, w) != color_of(before, w));
                    }
                }
                if trail@.len() == 0 {
                    assert(u == start);
                }
            }
        }
    }
    proof {
        assert(settled(r, colors@)) by {
            assert forall|v: u32| #[trigger] color_of(colors@, v) != ColorNode::Gray by {
                if color_of(colors@, v) == ColorNode::Gray {
                    assert(trail@.contains(v));
                }
            }
        }
        let s = Set::new(|v: u32| color_of(colors@, v) == ColorNode::Black);
        assert(!reaches_cycle(r, start)) by {
            if reaches_cycle(r, start) {
                let c = choose|c: u32| #[trigger] reachable(r, start, c) && on_cycle(r, c);
                lemma_closed_holds_reachable(r, s, start, c);
            }
        }
        assert forall|v: u32| #[trigger]
            color_of(colors@, v) == if color_of(before, v) == ColorNode::Black || reachable(r, start, v) {
                ColorNode::Black
            } else {
                color_of(before, v)
            } by {
            if reachable(r, start, v) {
                lemma_closed_holds_reachable(r, s, start, v);
            }
        }
    }
    false
}

} // verus!
