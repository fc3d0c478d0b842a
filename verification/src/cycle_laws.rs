//! What cycle detection guarantees: a search reports a circular dependency
//! only when the dependency map has a cycle, and a search started from every
//! node reports one whenever the map has a cycle.
use vstd::prelude::*;
use crate::deps::{DepsView, keys, deps_wf, edge, is_cycle, has_cycle, lemma_entry_unique};
use crate::cycles::{
    DfsState, cycle_of, cycle_pass, dfs, dfs_nbrs, dfs_measure, lemma_lookup, lemma_measure_decreases,
    lookup, nbrs, record_cycle,
};
use crate::graph::GraphValidationIssueKind;

verus! {

/// Consecutive ids of `p` follow dependencies listed in `g`.
pub open spec fn nbr_walk(g: DepsView, p: Seq<Seq<char>>) -> bool {
    forall|t: int| 0 <= t < p.len() - 1 ==> nbrs(g, #[trigger] p[t]).contains(p[t + 1])
}

/// Every dependency listed for a node of `v` is in `v`.
pub open spec fn closed(g: DepsView, v: Set<Seq<char>>) -> bool {
    forall|a: Seq<char>, b: Seq<char>| v.contains(a) && #[trigger] nbrs(g, a).contains(b) ==> v.contains(b)
}

/// No cycle of `g` passes through a node of `v`.
pub open spec fn off_cycles(g: DepsView, v: Set<Seq<char>>) -> bool {
    forall|p: Seq<Seq<char>>, i: int| #[trigger] is_cycle(g, p) && 0 <= i < p.len() ==> !v.contains(#[trigger] p[i])
}

/// `b` continues `a`: the issues of `a` come first, the ones added report
/// circular dependencies, finished nodes stay finished, and the reported
/// signatures change only with the issues.
pub open spec fn extends(a: DfsState, b: DfsState) -> bool {
    &&& a.issues.len() <= b.issues.len()
    &&& b.issues.subrange(0, a.issues.len() as int) == a.issues
    &&& forall|t: int| a.issues.len() <= t < b.issues.len()
        ==> (#[trigger] b.issues[t]).0 == GraphValidationIssueKind::CircularDependency
    &&& a.visited.subset_of(b.visited)
    &&& (b.issues.len() == a.issues.len() ==> b.seen == a.seen)
}

proof fn lemma_extends_refl(a: DfsState)
    ensures
        extends(a, a),
{
    assert(a.issues.subrange(0, a.issues.len() as int) =~= a.issues);
}

proof fn lemma_extends_trans(a: DfsState, b: DfsState, c: DfsState)
    requires
        extends(a, b),
        extends(b, c),
    ensures
        extends(a, c),
{
    let la = a.issues.len() as int;
    let lb = b.issues.len() as int;
    assert(c.issues.subrange(0, la) =~= c.issues.subrange(0, lb).subrange(0, la));
    assert forall|t: int| la <= t < c.issues.len() implies
        (#[trigger] c.issues[t]).0 == GraphValidationIssueKind::CircularDependency by {
        if t < lb {
            assert(c.issues.subrange(0, lb)[t] == c.issues[t]);
            assert(b.issues[t] == c.issues[t]);
        }
    }
}

/// A listed dependency that is itself a node is an edge, and conversely.
pub(crate) proof fn lemma_nbr_edge(g: DepsView, a: Seq<char>, b: Seq<char>)
    requires
        deps_wf(g),
    ensures
        edge(g, a, b) <==> nbrs(g, a).contains(b) && keys(g).contains(b),
{
    reveal(edge);
    lemma_lookup(g, a);
    if edge(g, a, b) {
        let j = choose|j: int| 0 <= j < g.len() && #[trigger] g[j].0 == a && g[j].1.contains(b);
        assert(keys(g)[j] == a);
        let i = lookup(g, a).unwrap();
        lemma_entry_unique(g, i, j);
    }
    if nbrs(g, a).contains(b) && keys(g).contains(b) {
        let i = lookup(g, a).unwrap();
        assert(g[i].0 == a && g[i].1.contains(b));
    }
}

/// A node with a listed dependency is a node of the map.
pub(crate) proof fn lemma_nbrs_key(g: DepsView, a: Seq<char>, b: Seq<char>)
    requires
        nbrs(g, a).contains(b),
    ensures
        keys(g).contains(a),
{
    lemma_lookup(g, a);
}

proof fn lemma_walk_push(g: DepsView, p: Seq<Seq<char>>, x: Seq<char>)
    requires
        nbr_walk(g, p),
        p.len() > 0,
        nbrs(g, p.last()).contains(x),
    ensures
        nbr_walk(g, p.push(x)),
{
    let q = p.push(x);
    assert forall|t: int| 0 <= t < q.len() - 1 implies nbrs(g, #[trigger] q[t]).contains(q[t + 1]) by {
        if t < p.len() - 1 {
            assert(q[t] == p[t] && q[t + 1] == p[t + 1]);
        } else {
            assert(q[t] == p.last());
        }
    }
}

/// A closed walk of listed dependencies is a cycle.
proof fn lemma_closed_walk_cycle(g: DepsView, c: Seq<Seq<char>>)
    requires
        deps_wf(g),
        c.len() >= 2,
        c[0] == c.last(),
        nbr_walk(g, c),
    ensures
        is_cycle(g, c),
{
    assert forall|t: int| 0 <= t < c.len() - 1 implies edge(g, #[trigger] c[t], c[t + 1]) by {
        assert(nbrs(g, c[t]).contains(c[t + 1]));
        if t + 1 < c.len() - 1 {
            assert(nbrs(g, c[t + 1]).contains(c[t + 2]));
            lemma_nbrs_key(g, c[t + 1], c[t + 2]);
        } else {
            assert(nbrs(g, c[0]).contains(c[1]));
            lemma_nbrs_key(g, c[0], c[1]);
        }
        lemma_nbr_edge(g, c[t], c[t + 1]);
    }
}

/// A dependency of the top of an open path on a node of that path closes a cycle.
proof fn lemma_back_edge_cycle(g: DepsView, open: Seq<Seq<char>>, nb: Seq<char>)
    requires
        deps_wf(g),
        nbr_walk(g, open),
        open.len() > 0,
        open.contains(nb),
        nbrs(g, open.last()).contains(nb),
    ensures
        has_cycle(g),
{
    open.index_of_first_ensures(nb);
    let idx = open.index_of_first(nb).unwrap();
    let c = cycle_of(open, nb);
    assert(c[0] == open[idx]);
    assert forall|t: int| 0 <= t < c.len() - 1 implies nbrs(g, #[trigger] c[t]).contains(c[t + 1]) by {
        if t < c.len() - 2 {
            assert(c[t] == open[idx + t]);
            assert(c[t + 1] == open[idx + t + 1]);
        } else {
            assert(c[t] == open.last());
        }
    }
    lemma_closed_walk_cycle(g, c);
}

proof fn lemma_closed_forward(g: DepsView, v: Set<Seq<char>>, p: Seq<Seq<char>>, k: int)
    requires
        deps_wf(g),
        closed(g, v),
        is_cycle(g, p),
        0 <= k < p.len(),
        v.contains(p[k]),
    ensures
        forall|t: int| k <= t < p.len() ==> v.contains(#[trigger] p[t]),
    decreases p.len() - k,
{
    if k < p.len() - 1 {
        assert(edge(g, p[k], p[k + 1]));
        lemma_nbr_edge(g, p[k], p[k + 1]);
        lemma_closed_forward(g, v, p, k + 1);
    }
}

/// A closed set holding one node of a cycle holds all of them.
proof fn lemma_closed_cycle(g: DepsView, v: Set<Seq<char>>, p: Seq<Seq<char>>, k: int)
    requires
        deps_wf(g),
        closed(g, v),
        is_cycle(g, p),
        0 <= k < p.len(),
        v.contains(p[k]),
    ensures
        forall|t: int| 0 <= t < p.len() ==> v.contains(#[trigger] p[t]),
{
    lemma_closed_forward(g, v, p, k);
    assert(v.contains(p[p.len() - 1]));
    lemma_closed_forward(g, v, p, 0);
}

/// What a search from `start` does, for `stack` the open path to it.
proof fn lemma_dfs(g: DepsView, start: Seq<char>, stack: Seq<Seq<char>>, st: DfsState)
    requires
        deps_wf(g),
        nbr_walk(g, stack.push(start)),
    ensures
        extends(st, dfs(g, start, stack, st)),
        dfs(g, start, stack, st).issues.len() > st.issues.len() ==> has_cycle(g),
        forall|x: Seq<char>| stack.contains(x) && !st.visited.contains(x) ==> !dfs(g, start, stack, st).visited.contains(x),
        ({
            let r = dfs(g, start, stack, st);
            r.issues.len() == st.issues.len() && st.seen.is_empty() && closed(g, st.visited) && off_cycles(g, st.visited)
                ==> closed(g, r.visited) && off_cycles(g, r.visited) && (!stack.contains(start) ==> r.visited.contains(start))
        }),
    decreases dfs_measure(g, stack), 1nat, 0nat,
{
    let r = dfs(g, start, stack, st);
    if st.visited.contains(start) || stack.contains(start) {
        lemma_extends_refl(st);
    } else {
        lemma_dfs_nbrs(g, start, 0, stack, st);
        let done = dfs_nbrs(g, start, 0, stack, st);
        assert(r == DfsState { visited: done.visited.insert(start), seen: done.seen, issues: done.issues });
        assert(stack.push(start).contains(start)) by {
            assert(stack.push(start)[stack.len() as int] == start);
        }
        assert forall|x: Seq<char>| stack.contains(x) && !st.visited.contains(x) implies !r.visited.contains(x) by {
            let j = choose|j: int| 0 <= j < stack.len() && stack[j] == x;
            assert(stack.push(start)[j] == x);
        }
        if r.issues.len() == st.issues.len() && st.seen.is_empty() && closed(g, st.visited) && off_cycles(g, st.visited) {
            assert(!done.visited.contains(start));
            assert forall|a: Seq<char>, b: Seq<char>| r.visited.contains(a) && #[trigger] nbrs(g, a).contains(b)
                implies r.visited.contains(b) by {
                if a == start {
                    let j = choose|j: int| 0 <= j < nbrs(g, start).len() && nbrs(g, start)[j] == b;
                    assert(done.visited.contains(nbrs(g, start)[j]));
                }
            }
            assert forall|p: Seq<Seq<char>>, i: int| #[trigger] is_cycle(g, p) && 0 <= i < p.len()
                implies !r.visited.contains(#[trigger] p[i]) by {
                if p[i] == start {
                    let s: int = if i < p.len() - 1 { i + 1 } else { 1 };
                    if i < p.len() - 1 {
                        assert(edge(g, p[i], p[i + 1]));
                    } else {
                        assert(edge(g, p[0], p[1]));
                    }
                    lemma_nbr_edge(g, p[i], p[s]);
                    let j = choose|j: int| 0 <= j < nbrs(g, start).len() && nbrs(g, start)[j] == p[s];
                    assert(done.visited.contains(nbrs(g, start)[j]));
                    lemma_closed_cycle(g, done.visited, p, s);
                    assert(done.visited.contains(p[i]));
                }
            }
        }
    }
}

/// What the search from `start` over its dependencies from position `i` on does.
proof fn lemma_dfs_nbrs(g: DepsView, start: Seq<char>, i: nat, stack: Seq<Seq<char>>, st: DfsState)
    requires
        deps_wf(g),
        nbr_walk(g, stack.push(start)),
    ensures
        extends(st, dfs_nbrs(g, start, i, stack, st)),
        dfs_nbrs(g, start, i, stack, st).issues.len() > st.issues.len() ==> has_cycle(g),
        forall|x: Seq<char>| stack.push(start).contains(x) && !st.visited.contains(x)
            ==> !dfs_nbrs(g, start, i, stack, st).visited.contains(x),
        ({
            let r = dfs_nbrs(g, start, i, stack, st);
            r.issues.len() == st.issues.len() && st.seen.is_empty() && closed(g, st.visited) && off_cycles(g, st.visited)
                ==> closed(g, r.visited) && off_cycles(g, r.visited) && (!stack.contains(start) ==>
                    forall|j: int| i <= j < nbrs(g, start).len() ==> r.visited.contains(#[trigger] nbrs(g, start)[j]))
        }),
    decreases dfs_measure(g, stack), 0nat, nbrs(g, start).len() - i,
{
    let r = dfs_nbrs(g, start, i, stack, st);
    if i >= nbrs(g, start).len() || stack.contains(start) {
        lemma_extends_refl(st);
    } else {
        let ns = nbrs(g, start);
        let nb = ns[i as int];
        let open = stack.push(start);
        assert(ns.contains(nb));
        lemma_nbrs_key(g, start, nb);
        assert(open.last() == start);
        let next = if open.contains(nb) {
            record_cycle(start, open, nb, st)
        } else if !st.visited.contains(nb) {
            dfs(g, nb, open, st)
        } else {
            st
        };
        assert(r == dfs_nbrs(g, start, i + 1, stack, next));
        if open.contains(nb) {
            let cycle = cycle_of(open, nb);
            let signature = crate::text::join(cycle, "->"@);
            if !st.seen.contains(signature) {
                assert(next.issues == st.issues.push(next.issues.last()));
                assert(next.issues.subrange(0, st.issues.len() as int) =~= st.issues);
                lemma_back_edge_cycle(g, open, nb);
            } else {
                lemma_extends_refl(st);
            }
        } else if !st.visited.contains(nb) {
            lemma_measure_decreases(g, stack, start);
            lemma_walk_push(g, open, nb);
            lemma_dfs(g, nb, open, st);
        } else {
            lemma_extends_refl(st);
        }
        assert(extends(st, next));
        lemma_dfs_nbrs(g, start, i + 1, stack, next);
        lemma_extends_trans(st, next, r);
        if r.issues.len() == st.issues.len() && st.seen.is_empty() && closed(g, st.visited) && off_cycles(g, st.visited) {
            assert(next.issues.len() == st.issues.len());
            assert(next.seen.is_empty());
            if open.contains(nb) {
                let cycle = cycle_of(open, nb);
                let signature = crate::text::join(cycle, "->"@);
                assert(!st.seen.contains(signature));
                assert(false);
            }
            assert(next.visited.contains(nb));
            assert forall|j: int| i <= j < ns.len() implies r.visited.contains(#[trigger] nbrs(g, start)[j]) by {
                if j == i {
                    assert(next.visited.subset_of(r.visited));
                }
            }
        }
    }
}

/// What cycle detection from each of the first `k` ids does.
proof fn lemma_cycle_pass(g: DepsView, ids: Seq<Seq<char>>, k: nat, init: DfsState)
    requires
        deps_wf(g),
        k <= ids.len(),
    ensures
        extends(init, cycle_pass(g, ids, k, init)),
        cycle_pass(g, ids, k, init).issues.len() > init.issues.len() ==> has_cycle(g),
        ({
            let r = cycle_pass(g, ids, k, init);
            r.issues.len() == init.issues.len() && init.seen.is_empty() && closed(g, init.visited)
                && off_cycles(g, init.visited)
                ==> closed(g, r.visited) && off_cycles(g, r.visited)
                    && forall|t: int| 0 <= t < k ==> r.visited.contains(#[trigger] ids[t])
        }),
    decreases k,
{
    if k == 0 {
        lemma_extends_refl(init);
    } else {
        let prev = cycle_pass(g, ids, (k - 1) as nat, init);
        lemma_cycle_pass(g, ids, (k - 1) as nat, init);
        let start = ids[k - 1];
        let empty = Seq::<Seq<char>>::empty();
        assert(empty.push(start).len() == 1);
        lemma_dfs(g, start, empty, prev);
        let r = cycle_pass(g, ids, k, init);
        assert(r == dfs(g, start, empty, prev));
        lemma_extends_trans(init, prev, r);
        if r.issues.len() == init.issues.len() && init.seen.is_empty() && closed(g, init.visited)
            && off_cycles(g, init.visited) {
            assert(prev.issues.len() == init.issues.len());
            assert forall|t: int| 0 <= t < k implies r.visited.contains(#[trigger] ids[t]) by {
                if t < k - 1 {
                    assert(prev.visited.contains(ids[t]));
                }
            }
        }
    }
}

/// Cycle detection is exact. Started from every node of the map with nothing
/// finished and nothing reported, the search keeps the issues it was given,
/// adds only circular-dependency issues, and adds one if and only if some node
/// of the map reaches itself along dependencies.
pub proof fn lemma_cycle_pass_exact(g: DepsView, ids: Seq<Seq<char>>, init: DfsState)
    requires
        deps_wf(g),
        init.visited.is_empty(),
        init.seen.is_empty(),
        forall|n: Seq<char>| keys(g).contains(n) ==> ids.contains(n),
    ensures
        extends(init, cycle_pass(g, ids, ids.len(), init)),
        cycle_pass(g, ids, ids.len(), init).issues.len() > init.issues.len() <==> has_cycle(g),
{
    lemma_cycle_pass(g, ids, ids.len(), init);
    let r = cycle_pass(g, ids, ids.len(), init);
    if has_cycle(g) && r.issues.len() == init.issues.len() {
        let p = choose|p: Seq<Seq<char>>| is_cycle(g, p);
        assert(edge(g, p[p.len() - 2], p[p.len() - 2 + 1]));
        lemma_nbr_edge(g, p[p.len() - 2], p[p.len() - 1]);
        assert(ids.contains(p[0]));
        let t = choose|t: int| 0 <= t < ids.len() && ids[t] == p[0];
        assert(r.visited.contains(ids[t]));
        assert(!r.visited.contains(p[0]));
    }
}

} // verus!
