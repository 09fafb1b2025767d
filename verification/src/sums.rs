//! Sums of a function over all node ids.

use vstd::prelude::*;

verus! {

/// A number for each node id.
pub type Weights = spec_fn(u32) -> int;

/// The number of node ids.
pub open spec fn all_ids() -> nat {
    0x1_0000_0000
}

/// The values of `h` on the ids below `n`, added up.
pub open spec fn total(h: Weights, n: nat) -> int
    decreases n,
{
    if n == 0 {
        0
    } else {
        total(h, (n - 1) as nat) + h((n - 1) as u32)
    }
}

/// Functions with the same values have the same sum.
pub proof fn lemma_total_same(h1: Weights, h2: Weights, n: nat)
    requires
        forall|v: u32| #[trigger] h1(v) == h2(v),
    ensures
        total(h1, n) == total(h2, n),
    decreases n,
{
    if n > 0 {
        lemma_total_same(h1, h2, (n - 1) as nat);
    }
}

/// The sum of a sum of two functions is the sum of their sums.
pub proof fn lemma_total_sum(h1: Weights, h2: Weights, h3: Weights, n: nat)
    requires
        forall|v: u32| #[trigger] h3(v) == h1(v) + h2(v),
    ensures
        total(h3, n) == total(h1, n) + total(h2, n),
    decreases n,
{
    if n > 0 {
        lemma_total_sum(h1, h2, h3, (n - 1) as nat);
    }
}

/// A function that is nowhere above another has a sum that is not above the other's.
pub proof fn lemma_total_le(h1: Weights, h2: Weights, n: nat)
    requires
        forall|v: u32| #[trigger] h1(v) <= h2(v),
    ensures
        total(h1, n) <= total(h2, n),
    decreases n,
{
    if n > 0 {
        lemma_total_le(h1, h2, (n - 1) as nat);
    }
}

/// A function that is zero but at `x` and at `y` has the sum of its values there.
pub proof fn lemma_total_two_points(h: Weights, n: nat, x: u32, y: u32)
    requires
        n <= all_ids(),
        x != y,
        forall|v: u32| v != x && v != y ==> #[trigger] h(v) == 0,
    ensures
        total(h, n) == (if x < n { h(x) } else { 0 }) + (if y < n { h(y) } else { 0 }),
    decreases n,
{
    if n > 0 {
        lemma_total_two_points(h, (n - 1) as nat, x, y);
    }
}

/// A function that is zero but at `x` has its value there as its sum.
pub proof fn lemma_total_point(h: Weights, n: nat, x: u32)
    requires
        n <= all_ids(),
        forall|v: u32| v != x ==> #[trigger] h(v) == 0,
    ensures
        total(h, n) == if x < n { h(x) } else { 0 },
    decreases n,
{
    if n > 0 {
        lemma_total_point(h, (n - 1) as nat, x);
    }
}

/// A function that is zero everywhere has the sum zero.
pub proof fn lemma_total_zero(h: Weights, n: nat)
    requires
        forall|v: u32| #[trigger] h(v) == 0,
    ensures
        total(h, n) == 0,
    decreases n,
{
    if n > 0 {
        lemma_total_zero(h, (n - 1) as nat);
    }
}

} // verus!
