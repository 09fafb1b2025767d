//! Flows in a network, cuts, and why no flow is larger than a cut.

use vstd::prelude::*;
use crate::sums::{
    all_ids, lemma_total_le, lemma_total_point, lemma_total_same, lemma_total_sum, lemma_total_zero, total,
    Weights,
};

verus! {

/// A number for each ordered pair of nodes: a capacity, or a flow.
pub type Flow = spec_fn(u32, u32) -> int;

/// One side of a cut: the nodes that lie on it.
pub type Side = spec_fn(u32) -> bool;

/// What `g` sends from `u` to each node.
pub open spec fn row(g: Flow, u: u32) -> Weights {
    |v: u32| g(u, v)
}

/// What `g` sends out of `u` in all, what comes in being taken off.
pub open spec fn leaving(g: Flow, u: u32) -> int {
    total(row(g, u), all_ids())
}

/// `g` is a flow from `s` to `t` within the capacities `c`: on no pair more than the
/// capacity, back the negative of forth, and out of every node but `s` and `t` as much as into it.
pub open spec fn valid_flow(c: Flow, g: Flow, s: u32, t: u32) -> bool {
    &&& forall|u: u32, v: u32| #[trigger] g(u, v) <= c(u, v)
    &&& forall|u: u32, v: u32| #[trigger] g(u, v) == -g(v, u)
    &&& forall|u: u32| u != s && u != t ==> #[trigger] leaving(g, u) == 0
}

/// The value of a flow: what it sends out of `s`.
pub open spec fn value(g: Flow, s: u32) -> int {
    leaving(g, s)
}

/// What `g` sends from `u`, a node of the side, to each node off the side.
pub open spec fn outward(g: Flow, side: Side, u: u32) -> Weights {
    |v: u32| if side(u) && !side(v) { g(u, v) } else { 0 }
}

/// What `g` sends from each node of the side to the nodes off the side.
pub open spec fn outward_rows(g: Flow, side: Side) -> Weights {
    |u: u32| total(outward(g, side, u), all_ids())
}

/// What `g` sends across the cut, from the side to the rest.
pub open spec fn crossing(g: Flow, side: Side) -> int {
    total(outward_rows(g, side), all_ids())
}

/// The capacity of the cut: the capacities of the pairs that lead from the side to the rest.
pub open spec fn cut_capacity(c: Flow, side: Side) -> int {
    crossing(c, side)
}

/// `x` is the value of a largest flow from `s` to `t`: some flow has it, some cut has it as
/// its capacity, and no flow has more.
pub open spec fn max_flow_value(c: Flow, s: u32, t: u32, x: int) -> bool {
    &&& exists|g: Flow| #[trigger] valid_flow(c, g, s, t) && value(g, s) == x
    &&& exists|side: Side| side(s) && !side(t) && #[trigger] cut_capacity(c, side) == x
    &&& forall|g: Flow| #[trigger] valid_flow(c, g, s, t) ==> value(g, s) <= x
}

spec fn inward(g: Flow, side: Side, u: u32) -> Weights {
    |v: u32| if side(u) && side(v) { g(u, v) } else { 0 }
}

spec fn inward_rows(g: Flow, side: Side, n: nat) -> Weights {
    |u: u32| total(inward(g, side, u), n)
}

spec fn inward_column(g: Flow, side: Side, x: u32) -> Weights {
    |u: u32| inward(g, side, u)(x)
}

spec fn kept_rows(g: Flow, side: Side) -> Weights {
    |u: u32| if side(u) { leaving(g, u) } else { 0 }
}

/// Within one side, what goes forth comes back: the pairs of the side carry nothing in all.
proof fn lemma_inside_cancels(g: Flow, side: Side, n: nat)
    requires
        forall|u: u32, v: u32| #[trigger] g(u, v) == -g(v, u),
        n <= all_ids(),
    ensures
        total(inward_rows(g, side, n), n) == 0,
    decreases n,
{
    if n > 0 {
        let m = (n - 1) as nat;
        let x = m as u32;
        lemma_inside_cancels(g, side, m);
        let wide = inward_rows(g, side, n);
        let narrow = inward_rows(g, side, m);
        let column = inward_column(g, side, x);
        assert forall|u: u32| #[trigger] wide(u) == narrow(u) + column(u) by {
            assert(total(inward(g, side, u), n) == total(inward(g, side, u), m) + inward(g, side, u)(x));
        }
        lemma_total_sum(narrow, column, wide, m);
        let last = inward(g, side, x);
        let nothing: Weights = |u: u32| 0int;
        assert forall|u: u32| #[trigger] nothing(u) == column(u) + last(u) by {
            assert(g(u, x) == -g(x, u));
        }
        lemma_total_sum(column, last, nothing, m);
        lemma_total_zero(nothing, m);
        assert(last(x) == 0) by {
            assert(g(x, x) == -g(x, x));
        }
        assert(wide(x) == total(last, m) + last(x));
    }
}

/// A flow sends across every cut between `s` and `t` what it sends out of `s`.
pub proof fn lemma_value_crosses(c: Flow, g: Flow, s: u32, t: u32, side: Side)
    requires
        valid_flow(c, g, s, t),
        side(s),
        !side(t),
    ensures
        value(g, s) == crossing(g, side),
{
    let n = all_ids();
    let kept = kept_rows(g, side);
    let out = outward_rows(g, side);
    let inn = inward_rows(g, side, n);
    assert forall|u: u32| u != s implies #[trigger] kept(u) == 0 by {
        if side(u) {
            assert(leaving(g, u) == 0);
        }
    }
    lemma_total_point(kept, n, s);
    assert forall|u: u32| #[trigger] kept(u) == out(u) + inn(u) by {
        let a = outward(g, side, u);
        let b = inward(g, side, u);
        if side(u) {
            assert forall|v: u32| #[trigger] row(g, u)(v) == a(v) + b(v) by {}
            lemma_total_sum(a, b, row(g, u), n);
        } else {
            lemma_total_zero(a, n);
            lemma_total_zero(b, n);
        }
    }
    lemma_total_sum(out, inn, kept, n);
    lemma_inside_cancels(g, side, n);
}

/// No flow is larger than a cut: what a flow sends out of `s` is at most the capacity of
/// any cut between `s` and `t`.
pub proof fn lemma_weak_duality(c: Flow, g: Flow, s: u32, t: u32, side: Side)
    requires
        valid_flow(c, g, s, t),
        side(s),
        !side(t),
    ensures
        value(g, s) <= cut_capacity(c, side),
{
    let n = all_ids();
    lemma_value_crosses(c, g, s, t, side);
    assert forall|u: u32| #[trigger] outward_rows(g, side)(u) <= outward_rows(c, side)(u) by {
        assert forall|v: u32| #[trigger] outward(g, side, u)(v) <= outward(c, side, u)(v) by {
            assert(g(u, v) <= c(u, v));
        }
        lemma_total_le(outward(g, side, u), outward(c, side, u), n);
    }
    lemma_total_le(outward_rows(g, side), outward_rows(c, side), n);
}

/// A flow that fills every pair from the side to the rest has the capacity of the cut as
/// its value, and so is a largest flow.
pub proof fn lemma_full_cut_is_maximum(c: Flow, g: Flow, s: u32, t: u32, side: Side)
    requires
        valid_flow(c, g, s, t),
        side(s),
        !side(t),
        forall|u: u32, v: u32| side(u) && !side(v) ==> #[trigger] g(u, v) == c(u, v),
    ensures
        value(g, s) == cut_capacity(c, side),
        max_flow_value(c, s, t, value(g, s)),
{
    let n = all_ids();
    lemma_value_crosses(c, g, s, t, side);
    assert forall|u: u32| #[trigger] outward_rows(g, side)(u) == outward_rows(c, side)(u) by {
        assert forall|v: u32| #[trigger] outward(g, side, u)(v) == outward(c, side, u)(v) by {
            if side(u) && !side(v) {
                assert(g(u, v) == c(u, v));
            }
        }
        lemma_total_same(outward(g, side, u), outward(c, side, u), n);
    }
    lemma_total_same(outward_rows(g, side), outward_rows(c, side), n);
    let x = value(g, s);
    assert(valid_flow(c, g, s, t) && value(g, s) == x);
    assert(side(s) && !side(t) && cut_capacity(c, side) == x);
    assert forall|h: Flow| #[trigger] valid_flow(c, h, s, t) implies value(h, s) <= x by {
        lemma_weak_duality(c, h, s, t, side);
    }
}

} // verus!
