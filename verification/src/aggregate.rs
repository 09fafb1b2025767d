//! The total cost of reaching one node from all the others, and a node for which that cost
//! stays within a limit.

use std::collections::HashMap;
use vstd::prelude::*;
use vstd::set::fold::{is_fun_commutative, lemma_fold_empty, lemma_fold_insert};
use vstd::set_lib::lemma_len_subset;
use vstd::std_specs::hash::group_hash_axioms;
use crate::adjacency::lemma_target_index_unique;
use crate::counting::lemma_ids_bound;
use crate::error::{GraphError, GraphKindError};
use crate::graph::{arc_edge, edge_before, lemma_edge_before_all, lemma_edge_before_next, lemma_edge_before_step, Graph};
use crate::limited_path::{lemma_weight_floor, walk_weight, within};
use crate::paths::{is_walk, lemma_distinct_ids_bound, lemma_reach_symmetric, lemma_walk_reverse, reachable, walk_between};

verus! {

/// The least weight of a walk from `a` to `b`, where there is a walk.
pub open spec fn least_weight<T>(g: &Graph<T>, a: u32, b: u32) -> int {
    choose|d: int| #[trigger] within(g, a, b, d) && !within(g, a, b, d - 1)
}

/// What `v` adds to the total of `s`: the least weight of a walk from `v` to `s`, and
/// nothing where `v` is `s` or no walk leads from `v` to `s`. Where every edge has its
/// mirror this is the least weight of a walk from `s` to `v` as well.
pub open spec fn toll<T>(g: &Graph<T>, v: u32, s: u32) -> int {
    if v != s && reachable(g.arcs(), v, s) {
        least_weight(g, v, s)
    } else {
        0
    }
}

/// The total of `s`: the tolls of all nodes, added up.
pub open spec fn total_toll<T>(g: &Graph<T>, s: u32) -> int {
    g.nodes().dom().fold(0int, |acc: int, v: u32| acc + toll(g, v, s))
}

/// What `v` adds to the total of `s` when the walks are taken from `s`: the least weight of
/// a walk from `s` to `v`, and nothing where `v` is `s` or no walk leads from `s` to `v`.
pub open spec fn toll_from<T>(g: &Graph<T>, s: u32, v: u32) -> int {
    if v != s && reachable(g.arcs(), s, v) {
        least_weight(g, s, v)
    } else {
        0
    }
}

/// The total of `s` with the walks taken from `s`: the least weights of the walks from `s`
/// to all other nodes that it reaches, added up.
pub open spec fn total_from<T>(g: &Graph<T>, s: u32) -> int {
    g.nodes().dom().fold(0int, |acc: int, v: u32| acc + toll_from(g, s, v))
}

/// Where every edge has its mirror, a walk read backwards is a walk of the same weight.
pub proof fn lemma_reverse_weight<T>(g: &Graph<T>, p: Seq<u32>)
    requires
        g.mirrored(),
        is_walk(g.arcs(), p),
    ensures
        is_walk(g.arcs(), p.reverse()),
        walk_weight(g, p.reverse()) == walk_weight(g, p),
    decreases p.len(),
{
    let r = g.arcs();
    assert forall|x: u32, y: u32| #[trigger] r(x, y) implies r(y, x) by {
        assert(g.has_edge(x, y));
        assert(g.has_edge(y, x));
    }
    lemma_walk_reverse(r, r, p, p[0], p[p.len() - 1]);
    if p.len() >= 2 {
        let q = p.drop_last();
        let x = p[p.len() - 1];
        let y = q[q.len() - 1];
        assert(is_walk(r, q)) by {
            assert forall|i: int| 0 <= i < q.len() - 1 implies r(#[trigger] q[i], q[i + 1]) by {
                assert(r(p[i], p[i + 1]));
            }
        }
        lemma_reverse_weight(g, q);
        assert(r(p[p.len() - 2], p[p.len() - 2 + 1]));
        assert(g.has_edge(y, x));
        assert(g.has_edge(x, y) && g.weight(x, y) == g.weight(y, x));
        let first = seq![x, y];
        let rest = q.reverse();
        assert(rest[0] == y);
        lemma_weight_join(g, first, rest);
        assert(first + rest.subrange(1, rest.len() as int) =~= p.reverse());
        assert(first.drop_last() =~= seq![x]);
        assert(walk_weight(g, first) == walk_weight(g, seq![x]) + g.weight(
            first[first.len() - 2],
            first[first.len() - 1],
        ));
        assert(walk_weight(g, seq![x]) == 0);
    } else {
        assert(p.reverse() =~= p);
    }
}

/// Where some walk from `a` to `b` stays within a weight, some weight is the least within
/// which a walk stays.
pub proof fn lemma_least_exists<T>(g: &Graph<T>, a: u32, b: u32, d: int)
    requires
        within(g, a, b, d),
    ensures
        within(g, a, b, least_weight(g, a, b)),
        !within(g, a, b, least_weight(g, a, b) - 1),
        least_weight(g, a, b) <= d,
    decreases d,
{
    let p = choose|p: Seq<u32>| #[trigger] walk_between(g.arcs(), p, a, b) && walk_weight(g, p) <= d;
    lemma_weight_floor(g, p);
    if within(g, a, b, d - 1) {
        let q = choose|q: Seq<u32>| #[trigger] walk_between(g.arcs(), q, a, b) && walk_weight(g, q) <= d - 1;
        lemma_weight_floor(g, q);
        lemma_least_exists(g, a, b, d - 1);
    } else {
        let l = least_weight(g, a, b);
        assert(within(g, a, b, l) && !within(g, a, b, l - 1));
        if l > d {
            assert(walk_between(g.arcs(), p, a, b) && walk_weight(g, p) <= l - 1);
        }
    }
}

/// Where every edge has its mirror, the walks to a node weigh what the walks from it weigh:
/// each toll is the same either way, and so is the total.
pub proof fn lemma_mirrored_tolls<T>(g: &Graph<T>, s: u32)
    requires
        g.wf(),
        g.mirrored(),
    ensures
        forall|v: u32| #[trigger] toll(g, v, s) == toll_from(g, s, v),
        total_toll(g, s) == total_from(g, s),
{
    let r = g.arcs();
    assert forall|x: u32, y: u32| #[trigger] r(x, y) implies r(y, x) by {
        assert(g.has_edge(x, y));
        assert(g.has_edge(y, x));
    }
    assert forall|a: u32, b: u32, d: int| #[trigger] within(g, a, b, d) implies within(g, b, a, d) by {
        let p = choose|p: Seq<u32>| #[trigger] walk_between(r, p, a, b) && walk_weight(g, p) <= d;
        lemma_reverse_weight(g, p);
        assert(walk_between(r, p.reverse(), b, a) && walk_weight(g, p.reverse()) <= d);
    }
    assert forall|v: u32| #[trigger] toll(g, v, s) == toll_from(g, s, v) by {
        if reachable(r, v, s) {
            lemma_reach_symmetric(r, v, s);
            let p = choose|p: Seq<u32>| #[trigger] walk_between(r, p, v, s);
            assert(within(g, v, s, walk_weight(g, p)));
            lemma_least_exists(g, v, s, walk_weight(g, p));
            assert(within(g, s, v, walk_weight(g, p)));
            lemma_least_exists(g, s, v, walk_weight(g, p));
            let d1 = least_weight(g, v, s);
            let d2 = least_weight(g, s, v);
            assert(within(g, s, v, d1));
            assert(within(g, v, s, d2));
            if d1 < d2 {
                let q = choose|q: Seq<u32>| #[trigger] walk_between(r, q, s, v) && walk_weight(g, q) <= d1;
                assert(walk_between(r, q, s, v) && walk_weight(g, q) <= d2 - 1);
            }
            if d2 < d1 {
                let q = choose|q: Seq<u32>| #[trigger] walk_between(r, q, v, s) && walk_weight(g, q) <= d2;
                assert(walk_between(r, q, v, s) && walk_weight(g, q) <= d1 - 1);
            }
        } else if reachable(r, s, v) {
            lemma_reach_symmetric(r, s, v);
        }
    }
    let f1 = |acc: int, v: u32| acc + toll(g, v, s);
    let f2 = |acc: int, v: u32| acc + toll_from(g, s, v);
    assert(f1 =~= f2) by {
        assert forall|acc: int, v: u32| #[trigger] f1(acc, v) == f2(acc, v) by {
            assert(toll(g, v, s) == toll_from(g, s, v));
        }
    }
}

/// Two walks that meet weigh together what they weigh apart.
pub proof fn lemma_weight_join<T>(g: &Graph<T>, x: Seq<u32>, y: Seq<u32>)
    requires
        x.len() >= 1,
        y.len() >= 1,
        x[x.len() - 1] == y[0],
    ensures
        walk_weight(g, x + y.subrange(1, y.len() as int)) == walk_weight(g, x) + walk_weight(g, y),
    decreases y.len(),
{
    let tail = y.subrange(1, y.len() as int);
    if y.len() == 1 {
        assert(x + tail =~= x);
    } else {
        let y0 = y.drop_last();
        lemma_weight_join(g, x, y0);
        let z = x + tail;
        assert(z.drop_last() =~= x + y0.subrange(1, y0.len() as int));
        assert(z[z.len() - 1] == y[y.len() - 1]);
        if y.len() == 2 {
            assert(z[z.len() - 2] == x[x.len() - 1]);
        } else {
            assert(z[z.len() - 2] == y[y.len() - 2]);
        }
    }
}

/// A walk weighs at most 2^32 - 1 for each of its edges.
pub proof fn lemma_weight_ceiling<T>(g: &Graph<T>, p: Seq<u32>)
    requires
        p.len() >= 1,
    ensures
        walk_weight(g, p) <= (p.len() - 1) * 0xFFFF_FFFF,
    decreases p.len(),
{
    if p.len() > 1 {
        lemma_weight_ceiling(g, p.drop_last());
    }
}

/// A walk that meets a node twice can lose what lies between: the rest is a walk between
/// the same ends that weighs no more.
pub proof fn lemma_cut<T>(g: &Graph<T>, p: Seq<u32>, lo: int, hi: int) -> (cut: Seq<u32>)
    requires
        is_walk(g.arcs(), p),
        0 <= lo < hi < p.len(),
        p[lo] == p[hi],
    ensures
        is_walk(g.arcs(), cut),
        cut.len() == p.len() - (hi - lo),
        cut[0] == p[0],
        cut[cut.len() - 1] == p[p.len() - 1],
        walk_weight(g, cut) <= walk_weight(g, p),
        forall|k: int| 0 <= k < cut.len() ==> #[trigger] cut[k] == p[if k <= lo { k } else { k + (hi - lo) }],
{
    let x = p.take(lo + 1);
    let m = p.subrange(lo, hi + 1);
    let y = p.skip(hi);
    let cut = x + y.subrange(1, y.len() as int);
    let xm = x + m.subrange(1, m.len() as int);
    assert(walk_weight(g, cut) == walk_weight(g, x) + walk_weight(g, y)) by {
        lemma_weight_join(g, x, y);
    }
    assert(walk_weight(g, xm) == walk_weight(g, x) + walk_weight(g, m)) by {
        lemma_weight_join(g, x, m);
    }
    assert(walk_weight(g, p) == walk_weight(g, xm) + walk_weight(g, y)) by {
        assert(xm =~= p.take(hi + 1));
        lemma_weight_join(g, xm, y);
        assert(xm + y.subrange(1, y.len() as int) =~= p);
    }
    lemma_weight_floor(g, m);
    assert forall|k: int| 0 <= k < cut.len() implies #[trigger] cut[k] == p[if k <= lo { k } else { k + (hi - lo) }] by {}
    assert forall|k: int| 0 <= k < cut.len() - 1 implies (g.arcs())(#[trigger] cut[k], cut[k + 1]) by {
        if k < lo {
            assert((g.arcs())(p[k], p[k + 1]));
        } else {
            let o = k + (hi - lo);
            assert((g.arcs())(p[o], p[o + 1]));
        }
    }
    cut
}

/// A walk through a finite set of nodes can be cut down to as many nodes as the set has,
/// between the same ends and without gaining weight.
pub proof fn lemma_short_walk<T>(g: &Graph<T>, all: Set<u32>, p: Seq<u32>) -> (q: Seq<u32>)
    requires
        is_walk(g.arcs(), p),
        all.finite(),
        forall|i: int| 0 <= i < p.len() ==> all.contains(#[trigger] p[i]),
    ensures
        is_walk(g.arcs(), q),
        q[0] == p[0],
        q[q.len() - 1] == p[p.len() - 1],
        q.len() <= all.len() || q.len() == 1,
        walk_weight(g, q) <= walk_weight(g, p),
    decreases p.len(),
{
    if p.len() <= all.len() || p.len() == 1 {
        p
    } else {
        if p.no_duplicates() {
            p.unique_seq_to_set();
            assert(p.to_set().subset_of(all));
            lemma_len_subset(p.to_set(), all);
        }
        let (i, j) = choose|i: int, j: int| 0 <= i < p.len() && 0 <= j < p.len() && i != j && p[i] == p[j];
        let lo = if i < j { i } else { j };
        let hi = if i < j { j } else { i };
        let cut = lemma_cut(g, p, lo, hi);
        assert forall|k: int| 0 <= k < cut.len() implies all.contains(#[trigger] cut[k]) by {
            assert(cut[k] == p[if k <= lo { k } else { k + (hi - lo) }]);
        }
        lemma_short_walk(g, all, cut)
    }
}

/// After `k` rounds every walk to `s` of at most `k` edges has its start in the table, at a
/// distance that the walk does not undercut.
spec fn hop<T>(g: &Graph<T>, dist: Map<u32, u64>, s: u32, k: int) -> bool {
    forall|p: Seq<u32>| #[trigger]
        is_walk(g.arcs(), p) && p[p.len() - 1] == s && p.len() <= k + 1 ==> dist.contains_key(p[0]) && dist[p[0]]
            <= walk_weight(g, p)
}

/// Every distance in the table is the weight of a walk to `s`, or more, and at most `cap`.
spec fn sound<T>(g: &Graph<T>, dist: Map<u32, u64>, s: u32, cap: int) -> bool {
    &&& dist.contains_key(s)
    &&& dist[s] == 0
    &&& forall|v: u32| #[trigger] dist.contains_key(v) ==> dist[v] <= cap && within(g, v, s, dist[v] as int)
}

proof fn lemma_round<T>(g: &Graph<T>, before: Map<u32, u64>, dist: Map<u32, u64>, s: u32, k: int, cap: int)
    requires
        hop(g, before, s, k),
        sound(g, dist, s, cap),
        (k + 1) * 0xFFFF_FFFF <= cap,
        k >= 0,
        forall|a: u32, b: u32| #[trigger]
            g.has_edge(a, b) && before.contains_key(b) && before[b] + g.weight(a, b) <= cap ==> dist.contains_key(a)
                && dist[a] <= before[b] + g.weight(a, b),
    ensures
        hop(g, dist, s, k + 1),
{
    assert forall|p: Seq<u32>| #[trigger]
        is_walk(g.arcs(), p) && p[p.len() - 1] == s && p.len() <= k + 2 implies dist.contains_key(p[0]) && dist[p[0]]
        <= walk_weight(g, p) by {
        lemma_weight_floor(g, p);
        if p.len() >= 2 {
            let a = p[0];
            let b = p[1];
            let q = p.skip(1);
            let x = seq![a, b];
            assert((g.arcs())(p[0int], p[0int + 1]));
            assert(is_walk(g.arcs(), q)) by {
                assert forall|i: int| 0 <= i < q.len() - 1 implies (g.arcs())(#[trigger] q[i], q[i + 1]) by {
                    assert((g.arcs())(p[i + 1], p[i + 1 + 1]));
                }
            }
            assert(q[q.len() - 1] == s);
            assert(before.contains_key(q[0]) && before[q[0]] <= walk_weight(g, q));
            lemma_weight_join(g, x, q);
            assert(x + q.subrange(1, q.len() as int) =~= p);
            assert(x.drop_last() =~= seq![a]);
            assert(walk_weight(g, x) == walk_weight(g, seq![a]) + g.weight(x[x.len() - 2], x[x.len() - 1]));
            assert(walk_weight(g, seq![a]) == 0);
            lemma_weight_ceiling(g, p);
            assert((p.len() - 1) * 0xFFFF_FFFF <= (k + 1) * 0xFFFF_FFFF);
        }
    }
}

/// Where the table is sound and bounds every walk to `s` from below, its distances are the
/// least weights, and it holds exactly the nodes that reach `s`.
proof fn lemma_exact<T>(g: &Graph<T>, dist: Map<u32, u64>, s: u32, cap: int, v: u32)
    requires
        sound(g, dist, s, cap),
        forall|p: Seq<u32>| #[trigger]
            is_walk(g.arcs(), p) && p[p.len() - 1] == s ==> dist.contains_key(p[0]) && dist[p[0]] <= walk_weight(g, p),
    ensures
        dist.contains_key(v) <==> reachable(g.arcs(), v, s),
        dist.contains_key(v) ==> least_weight(g, v, s) == dist[v],
{
    if dist.contains_key(v) {
        let d = dist[v] as int;
        assert(within(g, v, s, d));
        let p = choose|p: Seq<u32>| #[trigger] walk_between(g.arcs(), p, v, s) && walk_weight(g, p) <= d;
        assert(walk_between(g.arcs(), p, v, s));
        assert(!within(g, v, s, d - 1)) by {
            if within(g, v, s, d - 1) {
                let q = choose|q: Seq<u32>| #[trigger] walk_between(g.arcs(), q, v, s) && walk_weight(g, q) <= d - 1;
                assert(is_walk(g.arcs(), q) && q[q.len() - 1] == s);
            }
        }
        let l = least_weight(g, v, s);
        assert(within(g, v, s, l) && !within(g, v, s, l - 1));
        if l < d {
            let q = choose|q: Seq<u32>| #[trigger] walk_between(g.arcs(), q, v, s) && walk_weight(g, q) <= l;
            assert(is_walk(g.arcs(), q) && q[q.len() - 1] == s);
        }
        if d < l {
            assert(walk_between(g.arcs(), p, v, s) && walk_weight(g, p) <= l - 1);
        }
    }
    if reachable(g.arcs(), v, s) {
        let p = choose|p: Seq<u32>| #[trigger] walk_between(g.arcs(), p, v, s);
        assert(is_walk(g.arcs(), p) && p[p.len() - 1] == s);
    }
}

/// The total of `start`: for every other node that reaches `start`, the least weight of a
/// walk from it to `start`, all added up.
///
/// The distances are found by following every edge once in each of as many rounds as there
/// are nodes but one.
pub fn bellman_ford<T>(graph: &Graph<T>, start: &u32) -> (total: u128)
    requires
        graph.wf(),
    ensures
        total == total_toll(graph, *start),
{
    broadcast use group_hash_axioms;

    let s = *start;
    let ghost adj = graph.adj();
    let ids = graph.node_ids();
    let known = graph.get_node(&s).is_some();
    let ghost all = graph.nodes().dom().insert(s);
    proof {
        lemma_ids_bound(all);
        lemma_distinct_ids_bound(ids@);
        if !known {
            assert(all.len() == graph.nodes().dom().len() + 1);
        } else {
            assert(all =~= graph.nodes().dom());
        }
    }
    let size: u64 = if known { ids.len() as u64 } else { ids.len() as u64 + 1 };
    let rounds: u64 = if size == 0 { 0 } else { size - 1 };
    assert(rounds * 0xFFFF_FFFF <= 0xFFFF_FFFE_0000_0001) by (nonlinear_arith)
        requires
            rounds <= 0xFFFF_FFFF,
    ;
    let cap: u64 = rounds * 0xFFFF_FFFF;
    let mut dist: HashMap<u32, u64> = HashMap::new();
    dist.insert(s, 0);
    proof {
        assert(walk_between(graph.arcs(), seq![s], s, s));
        assert(walk_weight(graph, seq![s]) == 0);
        assert(hop(graph, dist@, s, 0)) by {
            assert forall|p: Seq<u32>| #[trigger]
                is_walk(graph.arcs(), p) && p[p.len() - 1] == s && p.len() <= 1 implies dist@.contains_key(p[0])
                && dist@[p[0]] <= walk_weight(graph, p) by {}
        }
    }
    let mut r: u64 = 0;
    while r < rounds
        invariant
            r <= rounds,
            graph.wf(),
            adj == graph.adj(),
            ids@.no_duplicates(),
            ids@.to_set() == graph.nodes().dom(),
            cap == rounds * 0xFFFF_FFFF,
            cap <= 0xFFFF_FFFE_0000_0001,
            sound(graph, dist@, s, cap as int),
            hop(graph, dist@, s, r as int),
        decreases rounds - r,
    {
        let ghost before = dist@;
        let mut i: usize = 0;
        proof {
            lemma_edge_before_all(adj, ids@);
        }
        while i < ids.len()
            invariant
                i <= ids@.len(),
                graph.wf(),
                adj == graph.adj(),
                ids@.no_duplicates(),
                ids@.to_set() == graph.nodes().dom(),
                cap <= 0xFFFF_FFFE_0000_0001,
                sound(graph, dist@, s, cap as int),
                forall|v: u32| #[trigger] before.contains_key(v) ==> dist@.contains_key(v) && dist@[v] <= before[v],
                forall|a: u32, b: u32| #[trigger]
                    edge_before(adj, ids@, i as int, 0, a, b) && before.contains_key(b) && before[b] + arc_edge(
                        adj,
                        a,
                        b,
                    ).weight <= cap ==> dist@.contains_key(a) && dist@[a] <= before[b] + arc_edge(adj, a, b).weight,
            decreases ids@.len() - i,
        {
            let u = ids[i];
            proof {
                assert(ids@.to_set().contains(ids@[i as int]));
                assert(graph.adj().dom().contains(u));
            }
            let oa = graph.get_adjacency(&u);
            let a = oa.unwrap();
            let ghost edges = a@;
            let mut j: usize = 0;
            while j < a.len()
                invariant
                    j <= edges.len(),
                    i < ids@.len(),
                    u == ids@[i as int],
                    edges == a@,
                    adj.contains_key(u),
                    edges == adj[u],
                    graph.wf(),
                    adj == graph.adj(),
                    ids@.no_duplicates(),
                    cap <= 0xFFFF_FFFE_0000_0001,
                    sound(graph, dist@, s, cap as int),
                    forall|v: u32| #[trigger]
                        before.contains_key(v) ==> dist@.contains_key(v) && dist@[v] <= before[v],
                    forall|a: u32, b: u32| #[trigger]
                        edge_before(adj, ids@, i as int, j as int, a, b) && before.contains_key(b) && before[b]
                            + arc_edge(adj, a, b).weight <= cap ==> dist@.contains_key(a) && dist@[a] <= before[b]
                            + arc_edge(adj, a, b).weight,
                decreases edges.len() - j,
            {
                let e = a.edge(j);
                let v = e.node.number;
                let w = e.weight;
                let ghost d0 = dist@;
                proof {
                    lemma_edge_before_step(adj, ids@, i as int, j as int);
                    lemma_target_index_unique(edges, j as int);
                    assert(graph.has_edge(u, v) && graph.weight(u, v) == w);
                }
                let via: Option<u64> = match dist.get(&v) {
                    Some(d) => Some(*d),
                    None => None,
                };
                match via {
                    None => {},
                    Some(dv) => {
                        let cand: u64 = dv + w as u64;
                        let better = cand <= cap && match dist.get(&u) {
                            Some(du) => cand < *du,
                            None => true,
                        };
                        if better {
                            dist.insert(u, cand);
                            proof {
                                assert(u != s) by {
                                    if u == s {
                                        assert(d0[s] == 0);
                                    }
                                }
                                let p = choose|p: Seq<u32>| #[trigger]
                                    walk_between(graph.arcs(), p, v, s) && walk_weight(graph, p) <= dv as int;
                                let x = seq![u, v];
                                assert(is_walk(graph.arcs(), x)) by {
                                    assert forall|k: int| 0 <= k < x.len() - 1 implies (graph.arcs())(
                                        #[trigger] x[k],
                                        x[k + 1],
                                    ) by {}
                                }
                                crate::paths::lemma_walk_join(graph.arcs(), x, p, u, v, s);
                                lemma_weight_join(graph, x, p);
                                assert(x.drop_last() =~= seq![u]);
                                assert(walk_weight(graph, x) == walk_weight(graph, seq![u]) + graph.weight(
                                    x[x.len() - 2],
                                    x[x.len() - 1],
                                ));
                                assert(walk_weight(graph, seq![u]) == 0);
                                let joined = x + p.subrange(1, p.len() as int);
                                assert(walk_between(graph.arcs(), joined, u, s) && walk_weight(graph, joined)
                                    <= cand as int);
                                assert(within(graph, u, s, cand as int));
                                assert forall|t: u32| #[trigger] dist@.contains_key(t) implies dist@[t] <= cap
                                    && within(graph, t, s, dist@[t] as int) by {
                                    if t != u {
                                        assert(d0.contains_key(t));
                                    }
                                }
                            }
                        }
                    },
                }
                proof {
                    assert forall|x: u32, y: u32| #[trigger]
                        edge_before(adj, ids@, i as int, j + 1, x, y) && before.contains_key(y) && before[y]
                            + arc_edge(adj, x, y).weight <= cap implies dist@.contains_key(x) && dist@[x] <= before[y]
                        + arc_edge(adj, x, y).weight by {
                        if edge_before(adj, ids@, i as int, j as int, x, y) {
                            assert(d0.contains_key(x) && d0[x] <= before[y] + arc_edge(adj, x, y).weight);
                        } else {
                            assert(x == u && y == v);
                            assert(d0.contains_key(v) && d0[v] <= before[v]);
                        }
                    }
                    assert forall|t: u32| #[trigger] before.contains_key(t) implies dist@.contains_key(t) && dist@[t]
                        <= before[t] by {
                        assert(d0.contains_key(t) && d0[t] <= before[t]);
                    }
                }
                j += 1;
            }
            proof {
                lemma_edge_before_next(adj, ids@, i as int);
            }
            i += 1;
        }
        proof {
            assert((r + 1) * 0xFFFF_FFFF <= rounds * 0xFFFF_FFFF) by (nonlinear_arith)
                requires
                    r + 1 <= rounds,
            ;
            assert forall|a: u32, b: u32| #[trigger]
                graph.has_edge(a, b) && before.contains_key(b) && before[b] + graph.weight(a, b)
                    <= cap implies dist@.contains_key(a) && dist@[a] <= before[b] + graph.weight(a, b) by {
                assert(edge_before(adj, ids@, ids@.len() as int, 0, a, b));
            }
            lemma_round(graph, before, dist@, s, r as int, cap as int);
        }
        r += 1;
    }
    proof {
        assert forall|p: Seq<u32>| #[trigger]
            is_walk(graph.arcs(), p) && p[p.len() - 1] == s implies dist@.contains_key(p[0]) && dist@[p[0]]
            <= walk_weight(graph, p) by {
            assert forall|k: int| 0 <= k < p.len() implies all.contains(#[trigger] p[k]) by {
                if k < p.len() - 1 {
                    assert((graph.arcs())(p[k], p[k + 1]));
                    assert(graph.adj().dom().contains(p[k]));
                }
            }
            let q = lemma_short_walk(graph, all, p);
            assert(all.len() >= 1) by {
                if all.len() == 0 {
                    assert(all.contains(s));
                    assert(all =~= Set::<u32>::empty());
                }
            }
            assert(q.len() <= rounds + 1);
        }
    }
    let ghost f = |acc: int, v: u32| acc + toll(graph, v, s);
    let mut total: u128 = 0;
    let mut i: usize = 0;
    proof {
        assert(is_fun_commutative(f));
        lemma_fold_empty::<u32, int>(0int, f);
        assert(ids@.take(0).to_set() =~= Set::<u32>::empty());
        lemma_distinct_ids_bound(ids@);
    }
    while i < ids.len()
        invariant
            i <= ids@.len(),
            ids@.len() <= 0x1_0000_0000,
            graph.wf(),
            ids@.no_duplicates(),
            cap <= 0xFFFF_FFFE_0000_0001,
            sound(graph, dist@, s, cap as int),
            forall|p: Seq<u32>| #[trigger]
                is_walk(graph.arcs(), p) && p[p.len() - 1] == s ==> dist@.contains_key(p[0]) && dist@[p[0]]
                    <= walk_weight(graph, p),
            f == (|acc: int, v: u32| acc + toll(graph, v, s)),
            is_fun_commutative(f),
            total == ids@.take(i as int).to_set().fold(0int, f),
            total <= i * (0xFFFF_FFFE_0000_0001),
        decreases ids@.len() - i,
    {
        let v = ids[i];
        proof {
            lemma_exact(graph, dist@, s, cap as int, v);
            let t0 = ids@.take(i as int);
            let t1 = ids@.take(i + 1);
            let done = t0.to_set();
            assert(!done.contains(v)) by {
                if done.contains(v) {
                    let k = choose|k: int| 0 <= k < t0.len() && t0[k] == v;
                    assert(ids@[k] == ids@[i as int]);
                }
            }
            assert(t1.to_set() =~= done.insert(v)) by {
                assert forall|x: u32| t1.to_set().contains(x) <==> done.insert(v).contains(x) by {
                    if t1.contains(x) {
                        let k = choose|k: int| 0 <= k < t1.len() && t1[k] == x;
                        if k < i {
                            assert(t0[k] == x);
                        }
                    }
                    if done.contains(x) {
                        let k = choose|k: int| 0 <= k < t0.len() && t0[k] == x;
                        assert(t1[k] == x);
                    }
                    if x == v {
                        assert(t1[i as int] == x);
                    }
                }
            }
            vstd::seq_lib::seq_to_set_is_finite(ids@.take(i as int));
            lemma_fold_insert(done, 0int, f, v);
        }
        if v != s {
            match dist.get(&v) {
                Some(d) => {
                    total = total + *d as u128;
                },
                None => {},
            }
        }
        i += 1;
    }
    proof {
        assert(ids@.take(ids@.len() as int) =~= ids@);
    }
    total
}

/// A node of an undirected graph whose total is positive and at most `limit`, or -1 where
/// there is none.
///
/// `GraphMustBeUndirected` where the graph is directed.
pub fn task_9_2<T>(graph: &Graph<T>, limit: &u32) -> (r: Result<i64, GraphError>)
    requires
        graph.wf(),
    ensures
        r is Ok <==> !graph.directed(),
        r matches Err(e) ==> e.spec_kind() == GraphKindError::GraphMustBeUndirected,
        r matches Ok(x) ==> if x == -1 {
            forall|s: u32|
                graph.nodes().contains_key(s) ==> !(0 < #[trigger] total_toll(graph, s) <= *limit)
        } else {
            0 <= x <= u32::MAX && graph.nodes().contains_key(x as u32) && 0 < total_toll(graph, x as u32)
                <= *limit
        },
{
    if graph.get_is_directed() {
        return Err(GraphError::new(GraphKindError::GraphMustBeUndirected, "the graph must be undirected"));
    }
    let ids = graph.node_ids();
    let mut i: usize = 0;
    while i < ids.len()
        invariant
            i <= ids@.len(),
            graph.wf(),
            !graph.directed(),
            ids@.to_set() == graph.nodes().dom(),
            forall|k: int| 0 <= k < i ==> !(0 < #[trigger] total_toll(graph, ids@[k]) <= *limit),
        decreases ids@.len() - i,
    {
        let s = ids[i];
        let total = bellman_ford(graph, &s);
        if total > 0 && total <= *limit as u128 {
            proof {
                assert(ids@.to_set().contains(ids@[i as int]));
            }
            return Ok(s as i64);
        }
        i += 1;
    }
    proof {
        assert forall|s: u32| graph.nodes().contains_key(s) implies !(0 < #[trigger] total_toll(graph, s)
            <= *limit) by {
            assert(ids@.to_set().contains(s));
            let k = choose|k: int| 0 <= k < ids@.len() && ids@[k] == s;
            assert(!(0 < total_toll(graph, ids@[k]) <= *limit));
        }
    }
    Ok(-1)
}

} // verus!
