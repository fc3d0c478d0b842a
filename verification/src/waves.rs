//! Grouping the nodes of a dependency map into topological waves (Kahn's
//! algorithm): each wave holds the nodes whose known dependencies all lie in
//! earlier waves.
use vstd::prelude::*;
use vstd::string::*;
use crate::deps::{NodeDeps, DepsView, keys, deps_wf, has_cycle};
use crate::error::{Error, ErrorKind};
use crate::order::{key_lt, sort_indices, stable_order, lemma_stable_order_sorted};
use crate::text::{chars_lt, chars_of, views};

verus! {

/// How often `a` occurs in `s`.
pub open spec fn count_in<A>(s: Seq<A>, a: A) -> nat
    decreases s.len(),
{
    if s.len() == 0 {
        0
    } else {
        count_in(s.drop_last(), a) + if s.last() == a { 1nat } else { 0nat }
    }
}

/// How many entries of `deps` name a node of the map that is not in `r`.
pub open spec fn pending(deps: Seq<Seq<char>>, ks: Seq<Seq<char>>, r: Set<Seq<char>>) -> nat
    decreases deps.len(),
{
    if deps.len() == 0 {
        0
    } else {
        pending(deps.drop_last(), ks, r)
            + if ks.contains(deps.last()) && !r.contains(deps.last()) { 1nat } else { 0nat }
    }
}

/// Every known dependency of entry `i` lies in `r`.
pub open spec fn deps_within(g: DepsView, i: int, r: Set<Seq<char>>) -> bool {
    forall|b: Seq<char>| g[i].1.contains(b) && keys(g).contains(b) ==> r.contains(b)
}

/// The nodes outside `r` whose known dependencies all lie in `r`.
pub open spec fn ready(g: DepsView, r: Set<Seq<char>>) -> Set<Seq<char>> {
    Set::new(|n: Seq<char>| exists|i: int| 0 <= i < g.len() && #[trigger] g[i].0 == n && !r.contains(n) && deps_within(g, i, r))
}

/// The nodes placed in the first `k` waves.
pub open spec fn resolved(g: DepsView, k: nat) -> Set<Seq<char>>
    decreases k,
{
    if k == 0 {
        Set::empty()
    } else {
        resolved(g, (k - 1) as nat).union(ready(g, resolved(g, (k - 1) as nat)))
    }
}

/// Strictly increasing in lexicographic order.
pub open spec fn strictly_sorted(w: Seq<Seq<char>>) -> bool {
    forall|i: int, j: int| 0 <= i < j < w.len() ==> chars_lt(#[trigger] w[i], #[trigger] w[j])
}

/// `w` is wave `k`: the ready nodes after `k` waves, in sorted order; not empty.
pub open spec fn is_wave(g: DepsView, k: nat, w: Seq<Seq<char>>) -> bool {
    &&& w.len() > 0
    &&& strictly_sorted(w)
    &&& w.to_set() == ready(g, resolved(g, k))
}

/// After `m` waves no node is ready, and every earlier wave was non-empty.
pub open spec fn stalls_at(g: DepsView, m: nat) -> bool {
    &&& ready(g, resolved(g, m)).is_empty()
    &&& forall|k: nat| k < m ==> !(#[trigger] ready(g, resolved(g, k))).is_empty()
}

proof fn lemma_count_in_push<A>(s: Seq<A>, x: A, a: A)
    ensures
        count_in(s.push(x), a) == count_in(s, a) + if x == a { 1nat } else { 0nat },
{
    assert(s.push(x).drop_last() =~= s);
}

proof fn lemma_count_in_le<A>(s: Seq<A>, t: int, a: A)
    requires
        0 <= t <= s.len(),
    ensures
        count_in(s.subrange(0, t), a) <= count_in(s, a),
    decreases s.len() - t,
{
    if t < s.len() {
        lemma_count_in_le(s, t + 1, a);
        lemma_count_in_push(s.subrange(0, t), s[t], a);
        assert(s.subrange(0, t + 1) =~= s.subrange(0, t).push(s[t]));
    } else {
        assert(s.subrange(0, t) =~= s);
    }
}

proof fn lemma_pending_zero(deps: Seq<Seq<char>>, ks: Seq<Seq<char>>, r: Set<Seq<char>>)
    ensures
        pending(deps, ks, r) == 0 <==> forall|b: Seq<char>| deps.contains(b) && ks.contains(b) ==> r.contains(b),
    decreases deps.len(),
{
    if deps.len() > 0 {
        let d = deps.drop_last();
        lemma_pending_zero(d, ks, r);
        assert forall|b: Seq<char>| deps.contains(b) implies d.contains(b) || b == deps.last() by {
            let j = choose|j: int| 0 <= j < deps.len() && deps[j] == b;
            if j < deps.len() - 1 {
                assert(d[j] == b);
            }
        }
        assert forall|b: Seq<char>| d.contains(b) implies deps.contains(b) by {
            let j = choose|j: int| 0 <= j < d.len() && d[j] == b;
            assert(deps[j] == b);
        }
        assert(deps.contains(deps.last())) by {
            assert(deps[deps.len() - 1] == deps.last());
        }
    }
}

proof fn lemma_pending_insert(deps: Seq<Seq<char>>, ks: Seq<Seq<char>>, r: Set<Seq<char>>, a: Seq<char>)
    requires
        ks.contains(a),
        !r.contains(a),
    ensures
        pending(deps, ks, r.insert(a)) + count_in(deps, a) == pending(deps, ks, r),
    decreases deps.len(),
{
    if deps.len() > 0 {
        lemma_pending_insert(deps.drop_last(), ks, r, a);
    }
}

pub(crate) proof fn lemma_resolved_in_keys(g: DepsView, k: nat)
    ensures
        forall|n: Seq<char>| #[trigger] resolved(g, k).contains(n) ==> keys(g).contains(n),
    decreases k,
{
    if k > 0 {
        lemma_resolved_in_keys(g, (k - 1) as nat);
        assert forall|n: Seq<char>| #[trigger] resolved(g, k).contains(n) implies keys(g).contains(n) by {
            if ready(g, resolved(g, (k - 1) as nat)).contains(n) {
                let i = choose|i: int| 0 <= i < g.len() && #[trigger] g[i].0 == n
                    && !resolved(g, (k - 1) as nat).contains(n) && deps_within(g, i, resolved(g, (k - 1) as nat));
                assert(keys(g)[i] == n);
            }
        }
    }
}

/// How many flags are set.
pub open spec fn count_true(s: Seq<bool>) -> nat
    decreases s.len(),
{
    if s.len() == 0 {
        0
    } else {
        count_true(s.drop_last()) + if s.last() { 1nat } else { 0nat }
    }
}

proof fn lemma_count_true(s: Seq<bool>)
    ensures
        count_true(s) <= s.len(),
        count_true(s) == s.len() <==> forall|i: int| 0 <= i < s.len() ==> s[i],
    decreases s.len(),
{
    if s.len() > 0 {
        lemma_count_true(s.drop_last());
        if count_true(s) == s.len() {
            assert forall|i: int| 0 <= i < s.len() implies s[i] by {
                if i < s.len() - 1 {
                    assert(s.drop_last()[i] == s[i]);
                }
            }
        }
        if forall|i: int| 0 <= i < s.len() ==> s[i] {
            assert forall|i: int| 0 <= i < s.drop_last().len() implies s.drop_last()[i] by {
                assert(s[i]);
            }
        }
    }
}

proof fn lemma_count_true_set(s: Seq<bool>, i: int)
    requires
        0 <= i < s.len(),
        !s[i],
    ensures
        count_true(s.update(i, true)) == count_true(s) + 1,
    decreases s.len(),
{
    if i < s.len() - 1 {
        lemma_count_true_set(s.drop_last(), i);
        assert(s.update(i, true).drop_last() =~= s.drop_last().update(i, true));
    } else {
        assert(s.update(i, true).drop_last() =~= s.drop_last());
    }
}


/// The bookkeeping of Kahn's algorithm before any node is placed: for each
/// entry, the number of its dependencies that are nodes of the map; for each
/// node, the entries that depend on it, once per occurrence.
fn build_counts(node_deps: &NodeDeps) -> (res: (Vec<usize>, Vec<Vec<usize>>))
    requires
        deps_wf(node_deps@),
    ensures
        res.0.len() == node_deps@.len(),
        res.1.len() == node_deps@.len(),
        forall|j: int| 0 <= j < node_deps@.len() ==>
            #[trigger] res.0@[j] == pending(node_deps@[j].1, keys(node_deps@), Set::empty()),
        forall|x: int, j: usize| 0 <= x < node_deps@.len() ==>
            #[trigger] count_in(res.1@[x]@, j) == if (j as int) < node_deps@.len() {
                count_in(node_deps@[j as int].1, keys(node_deps@)[x])
            } else {
                0
            },
{
    let ghost g = node_deps@;
    let ghost ks = keys(g);
    let n = node_deps.entries.len();
    let mut counts: Vec<usize> = Vec::new();
    let mut dependents: Vec<Vec<usize>> = Vec::new();
    let mut x: usize = 0;
    while x < n
        invariant
            n == g.len(),
            x <= n,
            dependents.len() == x,
            forall|y: int| 0 <= y < x ==> dependents@[y]@ == Seq::<usize>::empty(),
        decreases n - x,
    {
        dependents.push(Vec::new());
        x = x + 1;
    }
    proof {
        assert forall|y: int, j: usize| 0 <= y < n implies #[trigger] count_in(dependents@[y]@, j) == 0 by {
            assert(dependents@[y]@ == Seq::<usize>::empty());
        }
    }
    let mut i: usize = 0;
    while i < n
        invariant
            g == node_deps@,
            ks == keys(g),
            deps_wf(g),
            n == g.len(),
            i <= n,
            counts.len() == i,
            dependents.len() == n,
            forall|j: int| 0 <= j < i ==> #[trigger] counts@[j] == pending(g[j].1, ks, Set::empty()),
            forall|y: int, j: usize| 0 <= y < n ==>
                #[trigger] count_in(dependents@[y]@, j) == if (j as int) < i { count_in(g[j as int].1, ks[y]) } else { 0 },
        decreases n - i,
    {
        let deps = &node_deps.entries[i].deps;
        let ghost dv = views(deps@);
        assert(g[i as int].1 == dv);
        let mut cur: usize = 0;
        let mut m: usize = 0;
        while m < deps.len()
            invariant
                g == node_deps@,
                ks == keys(g),
                deps_wf(g),
                n == g.len(),
                i < n,
                dv == views(deps@),
                g[i as int].1 == dv,
                m <= deps.len(),
                counts.len() == i,
                dependents.len() == n,
                cur == pending(dv.subrange(0, m as int), ks, Set::empty()),
                cur <= m,
                forall|j: int| 0 <= j < i ==> #[trigger] counts@[j] == pending(g[j].1, ks, Set::empty()),
                forall|y: int, j: usize| 0 <= y < n ==>
                    #[trigger] count_in(dependents@[y]@, j) == if (j as int) < i {
                        count_in(g[j as int].1, ks[y])
                    } else if j == i {
                        count_in(dv.subrange(0, m as int), ks[y])
                    } else {
                        0
                    },
            decreases deps.len() - m,
        {
            let d = &deps[m];
            assert(dv[m as int] == d@);
            assert(dv.subrange(0, m + 1).drop_last() =~= dv.subrange(0, m as int));
            let ghost before = dependents@;
            match node_deps.find(d) {
                Some(x) => {
                    assert(ks[x as int] == d@);
                    assert(ks.contains(d@));
                    cur = cur + 1;
                    dependents[x].push(i);
                    proof {
                        assert forall|y: int, j: usize| 0 <= y < n implies
                            #[trigger] count_in(dependents@[y]@, j) == if (j as int) < i {
                                count_in(g[j as int].1, ks[y])
                            } else if j == i {
                                count_in(dv.subrange(0, m + 1), ks[y])
                            } else {
                                0
                            } by {
                            if y == x {
                                lemma_count_in_push(before[y]@, i, j);
                                assert(dependents@[y]@ == before[y]@.push(i));
                            } else {
                                assert(dependents@[y] == before[y]);
                                assert(ks[y] != ks[x as int]);
                            }
                        }
                    }
                },
                None => {
                    proof {
                        assert forall|y: int, j: usize| 0 <= y < n implies
                            #[trigger] count_in(dependents@[y]@, j) == if (j as int) < i {
                                count_in(g[j as int].1, ks[y])
                            } else if j == i {
                                count_in(dv.subrange(0, m + 1), ks[y])
                            } else {
                                0
                            } by {
                            assert(ks[y] != d@) by {
                                if ks[y] == d@ {
                                    assert(ks.contains(d@));
                                }
                            }
                        }
                    }
                },
            }
            m = m + 1;
        }
        assert(dv.subrange(0, m as int) =~= dv);
        counts.push(cur);
        i = i + 1;
    }
    (counts, dependents)
}


proof fn lemma_count_in_pos<A>(s: Seq<A>, t: int)
    requires
        0 <= t < s.len(),
    ensures
        count_in(s, s[t]) >= 1,
    decreases s.len(),
{
    if t < s.len() - 1 {
        lemma_count_in_pos(s.drop_last(), t);
        assert(s.drop_last()[t] == s[t]);
    }
}

/// Places node `x`: each entry that depends on it has one fewer pending
/// dependency per occurrence.
fn release(
    counts: &mut Vec<usize>,
    dependents: &Vec<Vec<usize>>,
    x: usize,
    Ghost(g): Ghost<DepsView>,
    Ghost(r): Ghost<Set<Seq<char>>>,
)
    requires
        x < g.len(),
        old(counts).len() == g.len(),
        dependents.len() == g.len(),
        !r.contains(keys(g)[x as int]),
        forall|j: int| 0 <= j < g.len() ==> #[trigger] old(counts)@[j] == pending(g[j].1, keys(g), r),
        forall|y: int, j: usize| 0 <= y < g.len() ==>
            #[trigger] count_in(dependents@[y]@, j) == if (j as int) < g.len() {
                count_in(g[j as int].1, keys(g)[y])
            } else {
                0
            },
    ensures
        final(counts).len() == g.len(),
        forall|j: int| 0 <= j < g.len() ==>
            #[trigger] final(counts)@[j] == pending(g[j].1, keys(g), r.insert(keys(g)[x as int])),
{
    let ghost ks = keys(g);
    let ghost kx = ks[x as int];
    let ghost c0 = counts@;
    let dx = &dependents[x];
    assert(ks.contains(kx));
    assert forall|j: int| 0 <= j < g.len() implies
        pending(g[j].1, ks, r.insert(kx)) + count_in(g[j].1, kx) == #[trigger] c0[j] by {
        lemma_pending_insert(g[j].1, ks, r, kx);
    }
    let mut t: usize = 0;
    while t < dx.len()
        invariant
            x < g.len(),
            ks == keys(g),
            kx == ks[x as int],
            dx@ == dependents@[x as int]@,
            counts.len() == g.len(),
            t <= dx.len(),
            forall|y: int, j: usize| 0 <= y < g.len() ==>
                #[trigger] count_in(dependents@[y]@, j) == if (j as int) < g.len() {
                    count_in(g[j as int].1, ks[y])
                } else {
                    0
                },
            forall|j: int| 0 <= j < g.len() ==>
                pending(g[j].1, ks, r.insert(kx)) + count_in(g[j].1, kx) == #[trigger] c0[j],
            forall|j: int| 0 <= j < g.len() ==>
                #[trigger] counts@[j] + count_in(dx@.subrange(0, t as int), j as usize) == c0[j],
        decreases dx.len() - t,
    {
        let j0 = dx[t];
        proof {
            lemma_count_in_pos(dx@, t as int);
            assert(count_in(dependents@[x as int]@, j0) >= 1);
            assert((j0 as int) < g.len());
            lemma_count_in_le(dx@, t + 1, j0);
            assert(dx@.subrange(0, t + 1) =~= dx@.subrange(0, t as int).push(j0));
            assert forall|j: usize| #![all_triggers] true implies
                count_in(dx@.subrange(0, t + 1), j) == count_in(dx@.subrange(0, t as int), j) + if j0 == j { 1nat } else { 0nat } by {
                lemma_count_in_push(dx@.subrange(0, t as int), j0, j);
            }
        }
        counts[j0] = counts[j0].saturating_sub(1);
        proof {
            assert forall|j: int| 0 <= j < g.len() implies
                #[trigger] counts@[j] + count_in(dx@.subrange(0, t + 1), j as usize) == c0[j] by {
                lemma_count_in_push(dx@.subrange(0, t as int), j0, j as usize);
            }
        }
        t = t + 1;
    }
    proof {
        assert(dx@.subrange(0, t as int) =~= dx@);
        assert forall|j: int| 0 <= j < g.len() implies
            #[trigger] counts@[j] == pending(g[j].1, ks, r.insert(kx)) by {
            assert(count_in(dx@, j as usize) == count_in(g[j].1, kx));
        }
    }
}


/// The positions, in increasing order, whose count is zero and whose flag is clear.
fn ready_indices(counts: &Vec<usize>, flags: &Vec<bool>) -> (res: Vec<usize>)
    requires
        counts.len() == flags.len(),
    ensures
        res@.no_duplicates(),
        forall|t: int| 0 <= t < res.len() ==> (#[trigger] res@[t] as int) < counts.len(),
        forall|j: usize| #[trigger] res@.contains(j) <==> (j as int) < counts.len() && counts@[j as int] == 0 && !flags@[j as int],
{
    let mut res: Vec<usize> = Vec::new();
    let mut j: usize = 0;
    while j < counts.len()
        invariant
            counts.len() == flags.len(),
            j <= counts.len(),
            forall|t: int| 0 <= t < res.len() ==> (#[trigger] res@[t]) < j,
            forall|s: int, t: int| 0 <= s < t < res.len() ==> res@[s] < res@[t],
            forall|i: usize| #[trigger] res@.contains(i) <==> i < j && counts@[i as int] == 0 && !flags@[i as int],
        decreases counts.len() - j,
    {
        if counts[j] == 0 && !flags[j] {
            let ghost before = res@;
            res.push(j);
            proof {
                assert(res@ == before.push(j));
                assert forall|i: usize| #[trigger] res@.contains(i) <==> i < j + 1 && counts@[i as int] == 0 && !flags@[i as int] by {
                    if i < j && counts@[i as int] == 0 && !flags@[i as int] {
                        assert(before.contains(i));
                        let t = choose|t: int| 0 <= t < before.len() && before[t] == i;
                        assert(res@[t] == i);
                    }
                    if i == j {
                        assert(res@[res.len() - 1] == j);
                    } else if res@.contains(i) {
                        let t = choose|t: int| 0 <= t < res.len() && res@[t] == i;
                        assert(before[t] == i);
                    } else if before.contains(i) {
                        let t = choose|t: int| 0 <= t < before.len() && before[t] == i;
                        assert(res@[t] == i);
                    }
                }
            }
        } else {
            proof {
                assert forall|i: usize| #[trigger] res@.contains(i) <==> i < j + 1 && counts@[i as int] == 0 && !flags@[i as int] by {
                    if res@.contains(i) {
                        let t = choose|t: int| 0 <= t < res.len() && res@[t] == i;
                        assert(res@[t] < j);
                    }
                }
            }
        }
        j = j + 1;
    }
    res
}

proof fn lemma_key_lt_single(a: Seq<char>, b: Seq<char>)
    ensures
        key_lt(seq![a], seq![b]) == chars_lt(a, b),
{
    reveal_with_fuel(key_lt, 2);
    assert(seq![a].drop_first() =~= Seq::<Seq<char>>::empty());
    assert(seq![b].drop_first() =~= Seq::<Seq<char>>::empty());
}


/// The nodes at positions `cw`, sorted by id; also their positions in that order.
fn sorted_wave(node_deps: &NodeDeps, cw: &Vec<usize>) -> (res: (Vec<String>, Vec<usize>))
    requires
        deps_wf(node_deps@),
        cw@.no_duplicates(),
        forall|t: int| 0 <= t < cw.len() ==> (#[trigger] cw@[t] as int) < node_deps@.len(),
    ensures
        res.0.len() == cw.len(),
        res.1.len() == cw.len(),
        res.1@.no_duplicates(),
        forall|j: usize| #[trigger] res.1@.contains(j) <==> cw@.contains(j),
        forall|p: int| 0 <= p < cw.len() ==> #[trigger] res.0@[p]@ == keys(node_deps@)[res.1@[p] as int],
        strictly_sorted(views(res.0@)),
{
    let ghost g = node_deps@;
    let ghost ks = keys(g);
    let mut sort_keys: Vec<Vec<Vec<char>>> = Vec::new();
    let mut t: usize = 0;
    while t < cw.len()
        invariant
            g == node_deps@,
            ks == keys(g),
            forall|u: int| 0 <= u < cw.len() ==> (#[trigger] cw@[u] as int) < g.len(),
            t <= cw.len(),
            sort_keys.len() == t,
            forall|u: int| 0 <= u < t ==> #[trigger] sort_keys.deep_view()[u] == seq![ks[cw@[u] as int]],
        decreases cw.len() - t,
    {
        let name = chars_of(node_deps.entries[cw[t]].node.as_str());
        assert(g[cw@[t as int] as int].0 == node_deps.entries@[cw@[t as int] as int].node@);
        let ghost before = sort_keys.deep_view();
        let ghost nv = name@;
        let mut k: Vec<Vec<char>> = Vec::new();
        k.push(name);
        assert(k@[0]@ == nv);
        assert(k.deep_view()[0] =~= nv);
        assert(k.deep_view() =~= seq![ks[cw@[t as int] as int]]);
        sort_keys.push(k);
        proof {
            assert(sort_keys.deep_view() =~= before.push(seq![ks[cw@[t as int] as int]]));
        }
        t = t + 1;
    }
    let ord = sort_indices(&sort_keys);
    let ghost kv = sort_keys.deep_view();
    proof {
        lemma_stable_order_sorted(kv, sort_keys.len() as nat);
    }
    let mut wave: Vec<String> = Vec::new();
    let mut order: Vec<usize> = Vec::new();
    let mut p: usize = 0;
    while p < ord.len()
        invariant
            g == node_deps@,
            ks == keys(g),
            kv == sort_keys.deep_view(),
            ord@ == stable_order(kv, cw.len() as nat),
            ord.len() == cw.len(),
            kv.len() == cw.len(),
            forall|u: int| 0 <= u < cw.len() ==> (#[trigger] cw@[u] as int) < g.len(),
            forall|u: int| 0 <= u < cw.len() ==> #[trigger] kv[u] == seq![ks[cw@[u] as int]],
            forall|u: int| 0 <= u < cw.len() ==> (#[trigger] ord@[u] as int) < cw.len(),
            p <= ord.len(),
            wave.len() == p,
            order.len() == p,
            forall|q: int| 0 <= q < p ==> #[trigger] order@[q] == cw@[ord@[q] as int],
            forall|q: int| 0 <= q < p ==> #[trigger] wave@[q]@ == ks[order@[q] as int],
        decreases ord.len() - p,
    {
        let pos = cw[ord[p]];
        wave.push(node_deps.entries[pos].node.clone());
        order.push(pos);
        assert(g[pos as int].0 == node_deps.entries@[pos as int].node@);
        p = p + 1;
    }
    proof {
        let o = ord@;
        assert forall|a: int, b: int| 0 <= a < b < order.len() implies order@[a] != order@[b] by {
            assert(o[a] != o[b]);
        }
        assert forall|j: usize| #[trigger] order@.contains(j) <==> cw@.contains(j) by {
            if order@.contains(j) {
                let q = choose|q: int| 0 <= q < order.len() && order@[q] == j;
                assert(cw@[o[q] as int] == j);
            }
            if cw@.contains(j) {
                let u = choose|u: int| 0 <= u < cw.len() && cw@[u] == j;
                assert(o.contains(u as usize));
                let q = choose|q: int| 0 <= q < o.len() && o[q] == u as usize;
                assert(order@[q] == j);
            }
        }
        let wv = views(wave@);
        assert forall|a: int, b: int| 0 <= a < b < wv.len() implies chars_lt(#[trigger] wv[a], #[trigger] wv[b]) by {
            assert(wv[a] == ks[order@[a] as int]);
            assert(wv[b] == ks[order@[b] as int]);
            assert(order@[a] != order@[b]);
            assert(wv[a] != wv[b]);
            assert(!key_lt(kv[o[b] as int], kv[o[a] as int]));
            lemma_key_lt_single(wv[b], wv[a]);
            crate::order::lemma_chars_lt_order(wv[a], wv[b], wv[a]);
        }
    }
    (wave, order)
}


proof fn lemma_count_true_zero(s: Seq<bool>)
    requires
        forall|j: int| 0 <= j < s.len() ==> !s[j],
    ensures
        count_true(s) == 0,
    decreases s.len(),
{
    if s.len() > 0 {
        lemma_count_true_zero(s.drop_last());
    }
}

proof fn lemma_ready_indices(
    g: DepsView,
    r: Set<Seq<char>>,
    counts: Seq<usize>,
    flags: Seq<bool>,
    cw: Seq<usize>,
)
    requires
        deps_wf(g),
        g.len() <= usize::MAX,
        counts.len() == g.len(),
        flags.len() == g.len(),
        forall|j: int| 0 <= j < g.len() ==> #[trigger] counts[j] == pending(g[j].1, keys(g), r),
        forall|j: int| 0 <= j < g.len() ==> #[trigger] flags[j] == r.contains(keys(g)[j]),
        forall|j: usize| #[trigger] cw.contains(j) <==> (j as int) < counts.len() && counts[j as int] == 0 && !flags[j as int],
    ensures
        forall|j: usize| #[trigger] cw.contains(j) <==> (j as int) < g.len() && ready(g, r).contains(keys(g)[j as int]),
        forall|j: usize| #[trigger] cw.contains(j) ==> !r.contains(keys(g)[j as int]),
        forall|nm: Seq<char>| ready(g, r).contains(nm) ==> exists|j: usize| #[trigger] cw.contains(j) && keys(g)[j as int] == nm,
{
    let ks = keys(g);
    assert forall|j: usize| (j as int) < g.len() implies
        (counts[j as int] == 0 && !flags[j as int] <==> #[trigger] ready(g, r).contains(ks[j as int])) by {
        lemma_pending_zero(g[j as int].1, ks, r);
        if ready(g, r).contains(ks[j as int]) {
            let i = choose|i: int| 0 <= i < g.len() && #[trigger] g[i].0 == ks[j as int] && !r.contains(ks[j as int]) && deps_within(g, i, r);
            assert(ks[i] == ks[j as int]);
        }
        assert(g[j as int].0 == ks[j as int]);
    }
    assert forall|nm: Seq<char>| ready(g, r).contains(nm) implies exists|j: usize| #[trigger] cw.contains(j) && ks[j as int] == nm by {
        let i = choose|i: int| 0 <= i < g.len() && #[trigger] g[i].0 == nm && !r.contains(nm) && deps_within(g, i, r);
        assert(ks[i] == nm);
        assert(cw.contains(i as usize));
    }
}

proof fn lemma_wave_step(
    g: DepsView,
    r: Set<Seq<char>>,
    cur: Set<Seq<char>>,
    cw: Seq<usize>,
    order: Seq<usize>,
    wave: Seq<String>,
    p: int,
)
    requires
        p == order.len(),
        wave.len() == order.len(),
        forall|j: usize| #[trigger] cw.contains(j) <==> (j as int) < g.len() && ready(g, r).contains(keys(g)[j as int]),
        forall|nm: Seq<char>| ready(g, r).contains(nm) ==> exists|j: usize| #[trigger] cw.contains(j) && keys(g)[j as int] == nm,
        forall|j: usize| #[trigger] order.contains(j) <==> cw.contains(j),
        forall|q: int| 0 <= q < order.len() ==> #[trigger] wave[q]@ == keys(g)[order[q] as int],
        cur == r.union(Set::new(|nm: Seq<char>| exists|q: int| 0 <= q < p && #[trigger] keys(g)[order[q] as int] == nm)),
    ensures
        views(wave).to_set() == ready(g, r),
        cur == r.union(ready(g, r)),
{
    let ks = keys(g);
    let placed = Set::new(|nm: Seq<char>| exists|q: int| 0 <= q < p && #[trigger] ks[order[q] as int] == nm);
    assert(placed =~= ready(g, r)) by {
        assert forall|nm: Seq<char>| placed.contains(nm) <==> ready(g, r).contains(nm) by {
            if placed.contains(nm) {
                let q = choose|q: int| 0 <= q < p && #[trigger] ks[order[q] as int] == nm;
                assert(order.contains(order[q]));
            }
            if ready(g, r).contains(nm) {
                let j = choose|j: usize| #[trigger] cw.contains(j) && ks[j as int] == nm;
                assert(order.contains(j));
                let q = choose|q: int| 0 <= q < order.len() && order[q] == j;
                assert(ks[order[q] as int] == nm);
            }
        }
    }
    assert(views(wave).to_set() =~= ready(g, r)) by {
        assert forall|nm: Seq<char>| views(wave).to_set().contains(nm) <==> placed.contains(nm) by {
            if views(wave).to_set().contains(nm) {
                let q = choose|q: int| 0 <= q < views(wave).len() && views(wave)[q] == nm;
                assert(ks[order[q] as int] == nm);
            }
            if placed.contains(nm) {
                let q = choose|q: int| 0 <= q < p && #[trigger] ks[order[q] as int] == nm;
                assert(views(wave)[q] == nm);
            }
        }
    }
}

/// The message detail of a dependency map that cannot be ordered.
pub open spec fn eager_cycle_detail() -> Seq<char> {
    "circular dependency detected during eager resolution"@
}

/// Groups the nodes of `node_deps` into topological waves.
///
/// Wave `k` holds, sorted by id, every node not in an earlier wave whose
/// dependencies that are nodes of the map all lie in earlier waves. Waves are
/// taken until none is ready; if some node was never placed, the dependency
/// map has a cycle and a graph-validation error is returned.
pub fn topological_waves(node_deps: &NodeDeps) -> (res: Result<Vec<Vec<String>>, Error>)
    requires
        deps_wf(node_deps@),
    ensures
        res is Ok <==> !has_cycle(node_deps@),
        match res {
            Ok(waves) => {
                &&& stalls_at(node_deps@, waves.len() as nat)
                &&& resolved(node_deps@, waves.len() as nat) == keys(node_deps@).to_set()
                &&& forall|k: int| 0 <= k < waves.len() ==> is_wave(node_deps@, k as nat, views(#[trigger] waves@[k]@))
            },
            Err(e) => {
                &&& e.kind == ErrorKind::GraphValidationFailed
                &&& e.message@ == "Dependency graph validation failed: "@ + eager_cycle_detail()
                    + ". Check dependency_graph()/validate_graph() output for details."@
                &&& exists|m: nat| stalls_at(node_deps@, m) && resolved(node_deps@, m) != keys(node_deps@).to_set()
            },
        },
{
    let ghost g = node_deps@;
    let ghost ks = keys(g);
    let n = node_deps.entries.len();
    let (mut counts, dependents) = build_counts(node_deps);
    let mut flags: Vec<bool> = Vec::new();
    let mut i: usize = 0;
    while i < n
        invariant
            i <= n,
            flags.len() == i,
            forall|j: int| 0 <= j < i ==> !flags@[j],
        decreases n - i,
    {
        flags.push(false);
        i = i + 1;
    }
    proof {
        lemma_count_true_zero(flags@);
    }
    let mut total: usize = 0;
    let mut waves: Vec<Vec<String>> = Vec::new();
    loop
        invariant
            g == node_deps@,
            ks == keys(g),
            deps_wf(g),
            n == g.len(),
            counts.len() == n,
            flags.len() == n,
            dependents.len() == n,
            forall|y: int, j: usize| 0 <= y < n ==>
                #[trigger] count_in(dependents@[y]@, j) == if (j as int) < n { count_in(g[j as int].1, ks[y]) } else { 0 },
            forall|j: int| 0 <= j < n ==> #[trigger] counts@[j] == pending(g[j].1, ks, resolved(g, waves.len() as nat)),
            forall|j: int| 0 <= j < n ==> #[trigger] flags@[j] == resolved(g, waves.len() as nat).contains(ks[j]),
            total == count_true(flags@),
            forall|k: int| 0 <= k < waves.len() ==> is_wave(g, k as nat, views(#[trigger] waves@[k]@)),
        ensures
            counts.len() == n,
            flags.len() == n,
            forall|j: int| 0 <= j < n ==> #[trigger] flags@[j] == resolved(g, waves.len() as nat).contains(ks[j]),
            total == count_true(flags@),
            forall|k: int| 0 <= k < waves.len() ==> is_wave(g, k as nat, views(#[trigger] waves@[k]@)),
            ready(g, resolved(g, waves.len() as nat)).is_empty(),
        decreases n - total,
    {
        let ghost r = resolved(g, waves.len() as nat);
        proof {
            lemma_count_true(flags@);
        }
        let cw = ready_indices(&counts, &flags);
        proof {
            lemma_ready_indices(g, r, counts@, flags@, cw@);
        }
        if cw.len() == 0 {
            proof {
                assert(ready(g, r) =~= Set::<Seq<char>>::empty()) by {
                    assert forall|nm: Seq<char>| !ready(g, r).contains(nm) by {
                        if ready(g, r).contains(nm) {
                            let j = choose|j: int| 0 <= j < g.len() && #[trigger] g[j].0 == nm && !r.contains(nm) && deps_within(g, j, r);
                            assert(cw@.contains(j as usize));
                        }
                    }
                }
            }
            break;
        }
        let (wave, order) = sorted_wave(node_deps, &cw);
        proof {
            assert forall|t: int| 0 <= t < order.len() implies
                (#[trigger] order@[t] as int) < n && !r.contains(ks[order@[t] as int]) by {
                assert(order@.contains(order@[t]));
                assert(cw@.contains(order@[t]));
            }
        }
        let ghost mut cur = r;
        let ghost t0 = total;
        let mut p: usize = 0;
        while p < order.len()
            invariant
                g == node_deps@,
                ks == keys(g),
                deps_wf(g),
                n == g.len(),
                counts.len() == n,
                flags.len() == n,
                dependents.len() == n,
                forall|y: int, j: usize| 0 <= y < n ==>
                    #[trigger] count_in(dependents@[y]@, j) == if (j as int) < n { count_in(g[j as int].1, ks[y]) } else { 0 },
                order@.no_duplicates(),
                forall|t: int| 0 <= t < order.len() ==> (#[trigger] order@[t] as int) < n,
                p <= order.len(),
                cur == r.union(Set::new(|nm: Seq<char>| exists|q: int| 0 <= q < p && #[trigger] ks[order@[q] as int] == nm)),
                forall|t: int| p <= t < order.len() ==> !r.contains(#[trigger] ks[order@[t] as int]),
                forall|j: int| 0 <= j < n ==> #[trigger] counts@[j] == pending(g[j].1, ks, cur),
                forall|j: int| 0 <= j < n ==> #[trigger] flags@[j] == cur.contains(ks[j]),
                total == count_true(flags@),
                total <= n,
                total == t0 + p,
            decreases order.len() - p,
        {
            let x = order[p];
            proof {
                assert(!cur.contains(ks[x as int])) by {
                    if cur.contains(ks[x as int]) {
                        if !r.contains(ks[x as int]) {
                            let q = choose|q: int| 0 <= q < p && #[trigger] ks[order@[q] as int] == ks[x as int];
                            assert(order@[q] != order@[p as int]);
                        }
                    }
                }
                lemma_count_true_set(flags@, x as int);
                lemma_count_true(flags@.update(x as int, true));
            }
            release(&mut counts, &dependents, x, Ghost(g), Ghost(cur));
            flags.set(x, true);
            total = total + 1;
            proof {
                let old_cur = cur;
                cur = cur.insert(ks[x as int]);
                assert(cur =~= r.union(Set::new(|nm: Seq<char>| exists|q: int| 0 <= q < p + 1 && #[trigger] ks[order@[q] as int] == nm))) by {
                    assert forall|nm: Seq<char>| cur.contains(nm) <==>
                        r.union(Set::new(|nm: Seq<char>| exists|q: int| 0 <= q < p + 1 && #[trigger] ks[order@[q] as int] == nm)).contains(nm) by {
                        if nm == ks[x as int] {
                            assert(ks[order@[p as int] as int] == nm);
                        }
                        if exists|q: int| 0 <= q < p + 1 && #[trigger] ks[order@[q] as int] == nm {
                            let q = choose|q: int| 0 <= q < p + 1 && #[trigger] ks[order@[q] as int] == nm;
                            if q < p {
                                assert(old_cur.contains(nm));
                            }
                        }
                    }
                }
                assert forall|j: int| 0 <= j < n implies #[trigger] flags@[j] == cur.contains(ks[j]) by {
                    if j != x {
                        assert(ks[j] != ks[x as int]);
                    }
                }
            }
            p = p + 1;
        }
        proof {
            lemma_wave_step(g, r, cur, cw@, order@, wave@, p as int);
        }
        waves.push(wave);
        proof {
            assert(resolved(g, waves.len() as nat) == r.union(ready(g, r)));
            assert forall|k: int| 0 <= k < waves.len() implies is_wave(g, k as nat, views(#[trigger] waves@[k]@)) by {
                if k < waves.len() - 1 {
                    assert(waves@[k] == waves@.drop_last()[k]);
                }
            }
        }
    }
    proof {
        lemma_count_true(flags@);
        lemma_resolved_in_keys(g, waves.len() as nat);
        let m = waves.len() as nat;
        assert forall|k: nat| k < m implies !(#[trigger] ready(g, resolved(g, k))).is_empty() by {
            let w = views(waves@[k as int]@);
            assert(is_wave(g, k, w));
            assert(w.to_set().contains(w[0]));
        }
    }
    if total < n {
        proof {
            let m = waves.len() as nat;
            let j = choose|j: int| 0 <= j < flags.len() && !flags@[j];
            assert(keys(g).to_set().contains(ks[j]));
            assert(stalls_at(g, m));
            crate::wave_laws::lemma_waves_complete_iff_acyclic(g, m);
        }
        return Err(Error::graph_validation_failed("circular dependency detected during eager resolution"));
    }
    proof {
        let m = waves.len() as nat;
        assert(resolved(g, m) =~= ks.to_set()) by {
            assert forall|nm: Seq<char>| ks.to_set().contains(nm) implies resolved(g, m).contains(nm) by {
                let j = choose|j: int| 0 <= j < ks.len() && ks[j] == nm;
                assert(flags@[j]);
            }
        }
        crate::wave_laws::lemma_waves_complete_iff_acyclic(g, m);
    }
    Ok(waves)
}

} // verus!
