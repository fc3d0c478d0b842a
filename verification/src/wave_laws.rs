//! What the waves of a dependency map guarantee: dependencies come in earlier
//! waves, every node comes in exactly one wave, and every node is placed
//! exactly when no node of the map reaches itself.
use vstd::prelude::*;
use crate::deps::{DepsView, keys, deps_wf, edge, is_cycle, has_cycle, lemma_entry_unique};
use crate::waves::{ready, resolved, deps_within, is_wave, stalls_at, lemma_resolved_in_keys};

verus! {

/// A node that is ready after `r` is outside `r`, and its dependencies among
/// the nodes lie in `r`.
proof fn lemma_ready_edge(g: DepsView, r: Set<Seq<char>>, a: Seq<char>, b: Seq<char>)
    requires
        deps_wf(g),
        ready(g, r).contains(a),
        edge(g, a, b),
    ensures
        r.contains(b),
        !r.contains(a),
{
    reveal(edge);
    let i = choose|i: int| 0 <= i < g.len() && #[trigger] g[i].0 == a && !r.contains(a) && deps_within(g, i, r);
    let j = choose|j: int| 0 <= j < g.len() && #[trigger] g[j].0 == a && g[j].1.contains(b);
    lemma_entry_unique(g, i, j);
}

/// The nodes of the first `k` waves are those placed after `k` waves.
proof fn lemma_resolved_waves(g: DepsView, ws: Seq<Seq<Seq<char>>>, k: nat)
    requires
        k <= ws.len(),
        forall|j: int| 0 <= j < ws.len() ==> is_wave(g, j as nat, #[trigger] ws[j]),
    ensures
        forall|n: Seq<char>|
            #[trigger] resolved(g, k).contains(n) <==> exists|j: int| 0 <= j < k && #[trigger] ws[j].contains(n),
    decreases k,
{
    if k > 0 {
        let r = resolved(g, (k - 1) as nat);
        lemma_resolved_waves(g, ws, (k - 1) as nat);
        let w = ws[k - 1];
        assert(is_wave(g, (k - 1) as nat, w));
        assert forall|n: Seq<char>|
            #[trigger] resolved(g, k).contains(n) <==> exists|j: int| 0 <= j < k && #[trigger] ws[j].contains(n) by {
            if resolved(g, k).contains(n) && !r.contains(n) {
                assert(ready(g, r).contains(n));
                assert(w.to_set().contains(n));
            }
            if exists|j: int| 0 <= j < k && #[trigger] ws[j].contains(n) {
                let j = choose|j: int| 0 <= j < k && #[trigger] ws[j].contains(n);
                if j == k - 1 {
                    assert(w.to_set().contains(n));
                }
            }
        }
    }
}

/// Dependencies come first: when `ws` are the waves of `g`, each dependency
/// (among the nodes of the map) of a node in wave `k` lies in an earlier wave.
pub proof fn lemma_waves_respect_dependencies(
    g: DepsView,
    ws: Seq<Seq<Seq<char>>>,
    k: int,
    a: Seq<char>,
    b: Seq<char>,
)
    requires
        deps_wf(g),
        forall|j: int| 0 <= j < ws.len() ==> is_wave(g, j as nat, #[trigger] ws[j]),
        0 <= k < ws.len(),
        ws[k].contains(a),
        edge(g, a, b),
    ensures
        exists|j: int| 0 <= j < k && #[trigger] ws[j].contains(b),
{
    assert(is_wave(g, k as nat, ws[k]));
    assert(ws[k].to_set().contains(a));
    lemma_ready_edge(g, resolved(g, k as nat), a, b);
    lemma_resolved_waves(g, ws, k as nat);
    assert(resolved(g, k as nat).contains(b));
}

/// Each node is resolved once: waves hold only nodes of the map, no node lies
/// in two waves, and when every node was placed, each lies in some wave.
pub proof fn lemma_waves_place_each_node_once(g: DepsView, ws: Seq<Seq<Seq<char>>>)
    requires
        forall|j: int| 0 <= j < ws.len() ==> is_wave(g, j as nat, #[trigger] ws[j]),
    ensures
        forall|j: int, n: Seq<char>| 0 <= j < ws.len() && #[trigger] ws[j].contains(n) ==> keys(g).contains(n),
        forall|i: int, j: int, n: Seq<char>|
            0 <= i < j < ws.len() && #[trigger] ws[i].contains(n) ==> !#[trigger] ws[j].contains(n),
        resolved(g, ws.len() as nat) == keys(g).to_set() ==> forall|n: Seq<char>|
            keys(g).contains(n) ==> exists|j: int| 0 <= j < ws.len() && #[trigger] ws[j].contains(n),
{
    assert forall|j: int, n: Seq<char>| 0 <= j < ws.len() && #[trigger] ws[j].contains(n) implies keys(g).contains(n) by {
        assert(is_wave(g, j as nat, ws[j]));
        assert(ws[j].to_set().contains(n));
        let q = choose|q: int| 0 <= q < g.len() && #[trigger] g[q].0 == n && !resolved(g, j as nat).contains(n)
            && deps_within(g, q, resolved(g, j as nat));
        assert(keys(g)[q] == n);
    }
    assert forall|i: int, j: int, n: Seq<char>|
        0 <= i < j < ws.len() && #[trigger] ws[i].contains(n) implies !#[trigger] ws[j].contains(n) by {
        lemma_resolved_waves(g, ws, j as nat);
        assert(resolved(g, j as nat).contains(n));
        assert(is_wave(g, j as nat, ws[j]));
        if ws[j].contains(n) {
            assert(ws[j].to_set().contains(n));
            let q = choose|q: int| 0 <= q < g.len() && #[trigger] g[q].0 == n && !resolved(g, j as nat).contains(n)
                && deps_within(g, q, resolved(g, j as nat));
        }
    }
    lemma_resolved_waves(g, ws, ws.len() as nat);
    if resolved(g, ws.len() as nat) == keys(g).to_set() {
        assert forall|n: Seq<char>| keys(g).contains(n) implies exists|j: int| 0 <= j < ws.len() && #[trigger] ws[j].contains(n) by {
            assert(keys(g).to_set().contains(n));
            assert(resolved(g, ws.len() as nat).contains(n));
        }
    }
}

/// No node of a cycle is ever placed.
proof fn lemma_cycle_never_resolved(g: DepsView, p: Seq<Seq<char>>, k: nat)
    requires
        deps_wf(g),
        is_cycle(g, p),
    ensures
        forall|i: int| 0 <= i < p.len() ==> !#[trigger] resolved(g, k).contains(p[i]),
    decreases k,
{
    if k > 0 {
        let r = resolved(g, (k - 1) as nat);
        lemma_cycle_never_resolved(g, p, (k - 1) as nat);
        assert forall|i: int| 0 <= i < p.len() implies !#[trigger] resolved(g, k).contains(p[i]) by {
            if resolved(g, k).contains(p[i]) {
                assert(!r.contains(p[i]));
                assert(ready(g, r).contains(p[i]));
                let s: int = if i < p.len() - 1 { i + 1 } else { 1 };
                if i < p.len() - 1 {
                    assert(edge(g, p[i], p[i + 1]));
                } else {
                    assert(edge(g, p[0], p[1]));
                }
                lemma_ready_edge(g, r, p[i], p[s]);
                assert(!r.contains(p[s]));
            }
        }
    }
}

/// A node left over when no node is ready depends on another left-over node.
proof fn lemma_stuck_successor(g: DepsView, r: Set<Seq<char>>, u: Seq<char>) -> (b: Seq<char>)
    requires
        ready(g, r).is_empty(),
        keys(g).contains(u),
        !r.contains(u),
    ensures
        edge(g, u, b),
        keys(g).contains(b),
        !r.contains(b),
{
    reveal(edge);
    let i = choose|i: int| 0 <= i < keys(g).len() && keys(g)[i] == u;
    assert(g[i].0 == u);
    if deps_within(g, i, r) {
        assert(ready(g, r).contains(u));
        assert(Set::<Seq<char>>::empty().contains(u));
    }
    let b = choose|b: Seq<char>| g[i].1.contains(b) && keys(g).contains(b) && !r.contains(b);
    b
}

/// From a left-over node, a walk of `len` left-over nodes.
proof fn lemma_stuck_walk(g: DepsView, r: Set<Seq<char>>, u: Seq<char>, len: nat) -> (p: Seq<Seq<char>>)
    requires
        ready(g, r).is_empty(),
        keys(g).contains(u),
        !r.contains(u),
        len >= 1,
    ensures
        p.len() == len,
        p[0] == u,
        forall|i: int| 0 <= i < p.len() ==> keys(g).contains(#[trigger] p[i]),
        forall|i: int| 0 <= i < p.len() - 1 ==> edge(g, #[trigger] p[i], p[i + 1]),
    decreases len,
{
    if len == 1 {
        seq![u]
    } else {
        let b = lemma_stuck_successor(g, r, u);
        let q = lemma_stuck_walk(g, r, b, (len - 1) as nat);
        let p = seq![u] + q;
        assert forall|i: int| 0 <= i < p.len() implies keys(g).contains(#[trigger] p[i]) by {
            if i > 0 {
                assert(p[i] == q[i - 1]);
            }
        }
        assert forall|i: int| 0 <= i < p.len() - 1 implies edge(g, #[trigger] p[i], p[i + 1]) by {
            if i == 0 {
                assert(p[1] == q[0]);
            } else {
                assert(p[i] == q[i - 1]);
                assert(p[i + 1] == q[i]);
            }
        }
        p
    }
}

/// A walk over more nodes than the map has entries repeats a node, and the
/// part between the two occurrences is a cycle.
proof fn lemma_long_walk_has_cycle(g: DepsView, p: Seq<Seq<char>>)
    requires
        p.len() > g.len(),
        forall|i: int| 0 <= i < p.len() ==> keys(g).contains(#[trigger] p[i]),
        forall|i: int| 0 <= i < p.len() - 1 ==> edge(g, #[trigger] p[i], p[i + 1]),
    ensures
        has_cycle(g),
{
    broadcast use vstd::seq_lib::seq_to_set_is_finite;
    if p.no_duplicates() {
        p.unique_seq_to_set();
        keys(g).lemma_cardinality_of_set();
        assert(p.to_set().subset_of(keys(g).to_set())) by {
            assert forall|x: Seq<char>| p.to_set().contains(x) implies keys(g).to_set().contains(x) by {
                let i = choose|i: int| 0 <= i < p.len() && p[i] == x;
                assert(keys(g).contains(p[i]));
            }
        }
        vstd::set_lib::lemma_len_subset(p.to_set(), keys(g).to_set());
        assert(false);
    }
    let (i, j) = choose|i: int, j: int| 0 <= i < p.len() && 0 <= j < p.len() && i != j && p[i] == p[j];
    let lo = if i < j { i } else { j };
    let hi = if i < j { j } else { i };
    let c = p.subrange(lo, hi + 1);
    assert forall|t: int| 0 <= t < c.len() - 1 implies edge(g, #[trigger] c[t], c[t + 1]) by {
        assert(c[t] == p[lo + t]);
        assert(c[t + 1] == p[lo + t + 1]);
    }
    assert(is_cycle(g, c));
}

/// Every node is placed exactly when the map has no cycle: once the waves
/// stall after `m` of them, all nodes were placed if and only if no node
/// reaches itself along dependencies.
pub proof fn lemma_waves_complete_iff_acyclic(g: DepsView, m: nat)
    requires
        deps_wf(g),
        stalls_at(g, m),
    ensures
        (resolved(g, m) == keys(g).to_set()) <==> !has_cycle(g),
{
    let r = resolved(g, m);
    lemma_resolved_in_keys(g, m);
    if has_cycle(g) {
        let p = choose|p: Seq<Seq<char>>| is_cycle(g, p);
        lemma_cycle_never_resolved(g, p, m);
        reveal(edge);
        assert(edge(g, p[p.len() - 2], p[p.len() - 2 + 1]));
        assert(keys(g).to_set().contains(p[0]));
        assert(!r.contains(p[0]));
    } else {
        if exists|u: Seq<char>| keys(g).contains(u) && !r.contains(u) {
            let u = choose|u: Seq<char>| keys(g).contains(u) && !r.contains(u);
            let p = lemma_stuck_walk(g, r, u, g.len() + 1);
            lemma_long_walk_has_cycle(g, p);
        }
        assert(r =~= keys(g).to_set());
    }
}

} // verus!
