//! What validation guarantees: the report names a circular dependency exactly
//! when the edges of the dependency graph close a cycle, and it is empty
//! exactly when every declared dependency is registered and there is no cycle.
use vstd::prelude::*;
use crate::deps::{DepsView, keys, deps_wf, edge, is_cycle, has_cycle, lemma_entry_unique};
use crate::cycles::{DfsState, cycle_pass, lookup, lemma_lookup, nbrs};
use crate::cycle_laws::{lemma_cycle_pass_exact, lemma_nbr_edge, lemma_nbrs_key};
use crate::graph::GraphValidationIssueKind;
use crate::graph_build::{
    EdgeView, NodePlan, ScanState, adj_push, add_targets, id_keys, label_text, lemma_adj_push_wf, node_hints, plans,
    report_issues, scan_hint, scan_hints, scan_nodes, sorted_edges, sorted_ids, edge_keys, targets,
};
use crate::meta::{DependencyHint, GraphBuildState, opt_view};
use crate::order::{stable_order, lemma_stable_order_sorted};

verus! {

/// `es` holds an edge from `a` to `b`.
pub open spec fn has_edge(es: Seq<EdgeView>, a: Seq<char>, b: Seq<char>) -> bool {
    exists|t: int| 0 <= t < es.len() && #[trigger] es[t].0 == a && es[t].1 == b
}

/// `p` walks at least one step along the edges `es` and returns to where it started.
pub open spec fn closed_edge_walk(es: Seq<EdgeView>, p: Seq<Seq<char>>) -> bool {
    &&& p.len() >= 2
    &&& p[0] == p.last()
    &&& forall|t: int| 0 <= t < p.len() - 1 ==> has_edge(es, #[trigger] p[t], p[t + 1])
}

/// The edges `es` close a cycle.
pub open spec fn edges_cycle(es: Seq<EdgeView>) -> bool {
    exists|p: Seq<Seq<char>>| #[trigger] closed_edge_walk(es, p)
}

/// The ids of the plans.
pub open spec fn plan_ids(ps: Seq<NodePlan>) -> Set<Seq<char>> {
    Set::new(|n: Seq<char>| exists|j: int| 0 <= j < ps.len() && #[trigger] ps[j].id == n)
}

/// What the edge pass keeps: a well-formed adjacency listing exactly the
/// edges, from ids of `froms` only, and missing-dependency issues only.
pub open spec fn scan_ok(sc: ScanState, froms: Set<Seq<char>>) -> bool {
    &&& deps_wf(sc.adj)
    &&& forall|a: Seq<char>, b: Seq<char>|
        #![trigger nbrs(sc.adj, a).contains(b)]
        #![trigger has_edge(sc.edges, a, b)]
        nbrs(sc.adj, a).contains(b) <==> has_edge(sc.edges, a, b)
    &&& forall|n: Seq<char>| keys(sc.adj).contains(n) ==> froms.contains(n)
    &&& forall|t: int| 0 <= t < sc.issues.len()
        ==> (#[trigger] sc.issues[t]).0 == GraphValidationIssueKind::MissingDependency
}

proof fn lemma_nbrs_at(g: DepsView, a: Seq<char>, j: int)
    requires
        deps_wf(g),
        0 <= j < g.len(),
        g[j].0 == a,
    ensures
        nbrs(g, a) == g[j].1,
{
    lemma_lookup(g, a);
    assert(keys(g)[j] == a);
    let i = lookup(g, a).unwrap();
    lemma_entry_unique(g, i, j);
}

proof fn lemma_nbrs_none(g: DepsView, a: Seq<char>)
    requires
        !keys(g).contains(a),
    ensures
        nbrs(g, a) == Seq::<Seq<char>>::empty(),
{
    lemma_lookup(g, a);
}

proof fn lemma_push_contains<A>(s: Seq<A>, x: A, n: A)
    ensures
        s.push(x).contains(n) <==> s.contains(n) || n == x,
{
    if s.push(x).contains(n) {
        let j = choose|j: int| 0 <= j < s.push(x).len() && s.push(x)[j] == n;
        if j < s.len() {
            assert(s[j] == n);
        }
    }
    if s.contains(n) {
        let j = choose|j: int| 0 <= j < s.len() && s[j] == n;
        assert(s.push(x)[j] == n);
    }
    if n == x {
        assert(s.push(x)[s.len() as int] == n);
    }
}

/// Adding a dependency to the adjacency adds it to the listed dependencies of
/// `f` only.
proof fn lemma_adj_push_nbrs(adj: DepsView, f: Seq<char>, to: Seq<char>, a: Seq<char>)
    requires
        deps_wf(adj),
    ensures
        deps_wf(adj_push(adj, f, to)),
        nbrs(adj_push(adj, f, to), a) == if a == f { nbrs(adj, a).push(to) } else { nbrs(adj, a) },
        keys(adj_push(adj, f, to)).contains(a) <==> keys(adj).contains(a) || a == f,
{
    lemma_adj_push_wf(adj, f, to);
    let r = adj_push(adj, f, to);
    lemma_lookup(adj, f);
    match lookup(adj, f) {
        Some(i) => {
            assert(keys(r) =~= keys(adj));
            if a == f {
                lemma_nbrs_at(r, a, i);
                lemma_nbrs_at(adj, a, i);
            } else if keys(adj).contains(a) {
                let j = choose|j: int| 0 <= j < keys(adj).len() && keys(adj)[j] == a;
                assert(adj[j].0 == a);
                assert(r[j] == adj[j]);
                lemma_nbrs_at(r, a, j);
                lemma_nbrs_at(adj, a, j);
            } else {
                lemma_nbrs_none(r, a);
                lemma_nbrs_none(adj, a);
            }
        },
        None => {
            assert(keys(r) =~= keys(adj).push(f));
            lemma_push_contains(keys(adj), f, a);
            if a == f {
                assert(r[adj.len() as int].0 == a);
                lemma_nbrs_at(r, a, adj.len() as int);
                lemma_nbrs_none(adj, a);
                assert(seq![to] =~= Seq::<Seq<char>>::empty().push(to));
            } else if keys(adj).contains(a) {
                let j = choose|j: int| 0 <= j < keys(adj).len() && keys(adj)[j] == a;
                assert(adj[j].0 == a);
                assert(r[j] == adj[j]);
                lemma_nbrs_at(r, a, j);
                lemma_nbrs_at(adj, a, j);
            } else {
                lemma_nbrs_none(r, a);
                lemma_nbrs_none(adj, a);
            }
        },
    }
}

proof fn lemma_has_edge_push(es: Seq<EdgeView>, e: EdgeView, a: Seq<char>, b: Seq<char>)
    ensures
        has_edge(es.push(e), a, b) <==> has_edge(es, a, b) || (e.0 == a && e.1 == b),
{
    let q = es.push(e);
    if has_edge(q, a, b) {
        let t = choose|t: int| 0 <= t < q.len() && #[trigger] q[t].0 == a && q[t].1 == b;
        if t < es.len() {
            assert(es[t] == q[t]);
        }
    }
    if has_edge(es, a, b) {
        let t = choose|t: int| 0 <= t < es.len() && #[trigger] es[t].0 == a && es[t].1 == b;
        assert(q[t] == es[t]);
    }
    if e.0 == a && e.1 == b {
        assert(q[es.len() as int] == e);
    }
}

proof fn lemma_add_targets(acc: ScanState, from: Seq<char>, ts: Seq<Seq<char>>, label: Seq<char>, froms: Set<Seq<char>>)
    requires
        scan_ok(acc, froms),
        froms.contains(from),
    ensures
        scan_ok(add_targets(acc, from, ts, label), froms),
    decreases ts.len(),
{
    if ts.len() > 0 {
        lemma_add_targets(acc, from, ts.drop_last(), label, froms);
        let a = add_targets(acc, from, ts.drop_last(), label);
        let r = add_targets(acc, from, ts, label);
        let e = (from, ts.last(), Some(label));
        assert(r.edges == a.edges.push(e));
        assert(r.adj == adj_push(a.adj, from, ts.last()));
        lemma_adj_push_wf(a.adj, from, ts.last());
        assert forall|x: Seq<char>, y: Seq<char>|
            #![trigger nbrs(r.adj, x).contains(y)]
            #![trigger has_edge(r.edges, x, y)]
            nbrs(r.adj, x).contains(y) <==> has_edge(r.edges, x, y) by {
            lemma_adj_push_nbrs(a.adj, from, ts.last(), x);
            lemma_has_edge_push(a.edges, e, x, y);
            if x == from {
                lemma_push_contains(nbrs(a.adj, x), ts.last(), y);
            }
        }
        assert forall|n: Seq<char>| keys(r.adj).contains(n) implies froms.contains(n) by {
            lemma_adj_push_nbrs(a.adj, from, ts.last(), n);
        }
    }
}

proof fn lemma_scan_hint(st: GraphBuildState, acc: ScanState, from: Seq<char>, h: DependencyHint, froms: Set<Seq<char>>)
    requires
        scan_ok(acc, froms),
        froms.contains(from),
    ensures
        scan_ok(scan_hint(st, acc, from, h), froms),
{
    let r = scan_hint(st, acc, from, h);
    if targets(st, h).len() == 0 {
        assert(r.issues == acc.issues.push(r.issues.last()));
        assert forall|t: int| 0 <= t < r.issues.len() implies
            (#[trigger] r.issues[t]).0 == GraphValidationIssueKind::MissingDependency by {
            if t < acc.issues.len() {
                assert(r.issues[t] == acc.issues[t]);
            }
        }
    } else {
        lemma_add_targets(acc, from, targets(st, h), label_text(h.cardinality, opt_view(h.name)), froms);
    }
}

proof fn lemma_scan_hints(st: GraphBuildState, acc: ScanState, from: Seq<char>, hs: Seq<DependencyHint>, froms: Set<Seq<char>>)
    requires
        scan_ok(acc, froms),
        froms.contains(from),
    ensures
        scan_ok(scan_hints(st, acc, from, hs), froms),
    decreases hs.len(),
{
    if hs.len() > 0 {
        lemma_scan_hints(st, acc, from, hs.drop_last(), froms);
        lemma_scan_hint(st, scan_hints(st, acc, from, hs.drop_last()), from, hs.last(), froms);
    }
}

proof fn lemma_scan_nodes(st: GraphBuildState, ps: Seq<NodePlan>, k: nat)
    requires
        k <= ps.len(),
    ensures
        scan_ok(scan_nodes(st, ps, k), plan_ids(ps)),
    decreases k,
{
    if k == 0 {
        let e = scan_nodes(st, ps, 0);
        assert forall|a: Seq<char>, b: Seq<char>|
            #![trigger nbrs(e.adj, a).contains(b)]
            #![trigger has_edge(e.edges, a, b)]
            nbrs(e.adj, a).contains(b) <==> has_edge(e.edges, a, b) by {
            lemma_nbrs_none(e.adj, a);
        }
    } else {
        lemma_scan_nodes(st, ps, (k - 1) as nat);
        assert(plan_ids(ps).contains(ps[k - 1].id));
        lemma_scan_hints(st, scan_nodes(st, ps, (k - 1) as nat), ps[k - 1].id, node_hints(ps, k - 1), plan_ids(ps));
    }
}

/// The adjacency of the edge pass has a cycle exactly when its edges close one.
proof fn lemma_adj_cycle_edges(sc: ScanState, froms: Set<Seq<char>>)
    requires
        scan_ok(sc, froms),
    ensures
        has_cycle(sc.adj) <==> edges_cycle(sc.edges),
{
    let g = sc.adj;
    if has_cycle(g) {
        let p = choose|p: Seq<Seq<char>>| is_cycle(g, p);
        assert forall|t: int| 0 <= t < p.len() - 1 implies has_edge(sc.edges, #[trigger] p[t], p[t + 1]) by {
            assert(edge(g, p[t], p[t + 1]));
            lemma_nbr_edge(g, p[t], p[t + 1]);
        }
        assert(closed_edge_walk(sc.edges, p));
    }
    if edges_cycle(sc.edges) {
        let p = choose|p: Seq<Seq<char>>| closed_edge_walk(sc.edges, p);
        assert forall|t: int| 0 <= t < p.len() - 1 implies edge(g, #[trigger] p[t], p[t + 1]) by {
            assert(has_edge(sc.edges, p[t], p[t + 1]));
            if t + 1 < p.len() - 1 {
                assert(has_edge(sc.edges, p[t + 1], p[t + 2]));
                lemma_nbrs_key(g, p[t + 1], p[t + 2]);
            } else {
                assert(has_edge(sc.edges, p[0], p[1]));
                lemma_nbrs_key(g, p[0], p[1]);
            }
            lemma_nbr_edge(g, p[t], p[t + 1]);
        }
        assert(is_cycle(g, p));
    }
}

/// Sorting the edges keeps which edges there are.
proof fn lemma_sorted_has_edge(es: Seq<EdgeView>, a: Seq<char>, b: Seq<char>)
    requires
        es.len() <= usize::MAX,
    ensures
        has_edge(sorted_edges(es), a, b) <==> has_edge(es, a, b),
{
    lemma_stable_order_sorted(edge_keys(es), es.len());
    let order = stable_order(edge_keys(es), es.len());
    let s = sorted_edges(es);
    if has_edge(s, a, b) {
        let q = choose|q: int| 0 <= q < s.len() && #[trigger] s[q].0 == a && s[q].1 == b;
        let t = order[q] as int;
        assert(s[q] == es[t]);
    }
    if has_edge(es, a, b) {
        let t = choose|t: int| 0 <= t < es.len() && #[trigger] es[t].0 == a && es[t].1 == b;
        assert(order.contains(t as usize));
        let q = choose|q: int| 0 <= q < order.len() && order[q] == t as usize;
        assert(s[q] == es[t]);
    }
}

/// Sorting the edges keeps whether they close a cycle.
proof fn lemma_sorted_edges_cycle(es: Seq<EdgeView>)
    requires
        es.len() <= usize::MAX,
    ensures
        edges_cycle(sorted_edges(es)) <==> edges_cycle(es),
{
    let s = sorted_edges(es);
    if edges_cycle(s) {
        let p = choose|p: Seq<Seq<char>>| closed_edge_walk(s, p);
        assert forall|t: int| 0 <= t < p.len() - 1 implies has_edge(es, #[trigger] p[t], p[t + 1]) by {
            lemma_sorted_has_edge(es, p[t], p[t + 1]);
        }
        assert(closed_edge_walk(es, p));
    }
    if edges_cycle(es) {
        let p = choose|p: Seq<Seq<char>>| closed_edge_walk(es, p);
        assert forall|t: int| 0 <= t < p.len() - 1 implies has_edge(s, #[trigger] p[t], p[t + 1]) by {
            lemma_sorted_has_edge(es, p[t], p[t + 1]);
        }
        assert(closed_edge_walk(s, p));
    }
}

/// The report is the edge pass's issues followed by circular-dependency
/// issues, and there are such issues exactly when the graph's edges close a cycle.
proof fn lemma_report_parts(st: GraphBuildState)
    requires
        plans(st).len() <= usize::MAX,
        scan_nodes(st, plans(st), plans(st).len()).edges.len() <= usize::MAX,
    ensures
        ({
            let sc = scan_nodes(st, plans(st), plans(st).len());
            let ri = report_issues(st);
            &&& scan_ok(sc, plan_ids(plans(st)))
            &&& sc.issues.len() <= ri.len()
            &&& ri.subrange(0, sc.issues.len() as int) == sc.issues
            &&& forall|t: int| sc.issues.len() <= t < ri.len()
                ==> (#[trigger] ri[t]).0 == GraphValidationIssueKind::CircularDependency
            &&& (ri.len() > sc.issues.len() <==> edges_cycle(sorted_edges(sc.edges)))
        }),
{
    let ps = plans(st);
    let sc = scan_nodes(st, ps, ps.len());
    lemma_scan_nodes(st, ps, ps.len());
    let ids = sorted_ids(ps);
    lemma_stable_order_sorted(id_keys(ps), ps.len());
    let order = stable_order(id_keys(ps), ps.len());
    assert forall|n: Seq<char>| keys(sc.adj).contains(n) implies ids.contains(n) by {
        assert(plan_ids(ps).contains(n));
        let j = choose|j: int| 0 <= j < ps.len() && #[trigger] ps[j].id == n;
        assert(order.contains(j as usize));
        let q = choose|q: int| 0 <= q < order.len() && order[q] == j as usize;
        assert(ids[q] == n);
    }
    let init = DfsState { visited: Set::empty(), seen: Set::empty(), issues: sc.issues };
    lemma_cycle_pass_exact(sc.adj, ids, init);
    let r = cycle_pass(sc.adj, ids, ids.len(), init);
    assert(report_issues(st) == r.issues);
    lemma_adj_cycle_edges(sc, plan_ids(ps));
    lemma_sorted_edges_cycle(sc.edges);
}

/// Validation reports a circular dependency exactly when the edges of the
/// dependency graph close a cycle: the report of a build state holds an issue
/// of that kind if and only if the graph's edges, as returned, do.
pub proof fn lemma_report_cycles_exact(st: GraphBuildState)
    requires
        plans(st).len() <= usize::MAX,
        scan_nodes(st, plans(st), plans(st).len()).edges.len() <= usize::MAX,
    ensures
        (exists|t: int| 0 <= t < report_issues(st).len()
            && (#[trigger] report_issues(st)[t]).0 == GraphValidationIssueKind::CircularDependency)
            <==> edges_cycle(sorted_edges(scan_nodes(st, plans(st), plans(st).len()).edges)),
{
    let sc = scan_nodes(st, plans(st), plans(st).len());
    let ri = report_issues(st);
    lemma_report_parts(st);
    if exists|t: int| 0 <= t < ri.len() && (#[trigger] ri[t]).0 == GraphValidationIssueKind::CircularDependency {
        let t = choose|t: int| 0 <= t < ri.len() && (#[trigger] ri[t]).0 == GraphValidationIssueKind::CircularDependency;
        if t < sc.issues.len() {
            assert(ri.subrange(0, sc.issues.len() as int)[t] == ri[t]);
            assert(sc.issues[t] == ri[t]);
        }
    }
    if ri.len() > sc.issues.len() {
        let t = sc.issues.len() as int;
        assert(ri[t].0 == GraphValidationIssueKind::CircularDependency);
    }
}

/// Every dependency hint of every node points to at least one node.
pub open spec fn all_hints_bound(st: GraphBuildState) -> bool {
    forall|k: int, j: int| 0 <= k < plans(st).len() && 0 <= j < node_hints(plans(st), k).len()
        ==> targets(st, #[trigger] node_hints(plans(st), k)[j]).len() > 0
}

proof fn lemma_add_targets_issues(acc: ScanState, from: Seq<char>, ts: Seq<Seq<char>>, label: Seq<char>)
    ensures
        add_targets(acc, from, ts, label).issues == acc.issues,
    decreases ts.len(),
{
    if ts.len() > 0 {
        lemma_add_targets_issues(acc, from, ts.drop_last(), label);
    }
}

proof fn lemma_scan_hints_issues(st: GraphBuildState, acc: ScanState, from: Seq<char>, hs: Seq<DependencyHint>)
    ensures
        scan_hints(st, acc, from, hs).issues.len() >= acc.issues.len(),
        scan_hints(st, acc, from, hs).issues.len() == acc.issues.len()
            <==> forall|j: int| 0 <= j < hs.len() ==> targets(st, #[trigger] hs[j]).len() > 0,
    decreases hs.len(),
{
    if hs.len() > 0 {
        let d = hs.drop_last();
        lemma_scan_hints_issues(st, acc, from, d);
        let mid = scan_hints(st, acc, from, d);
        let h = hs.last();
        if targets(st, h).len() > 0 {
            lemma_add_targets_issues(mid, from, targets(st, h), label_text(h.cardinality, opt_view(h.name)));
        }
        assert forall|j: int| 0 <= j < d.len() implies #[trigger] d[j] == hs[j] by {}
        if forall|j: int| 0 <= j < hs.len() ==> targets(st, #[trigger] hs[j]).len() > 0 {
            assert(targets(st, hs[hs.len() - 1]).len() > 0);
            assert forall|j: int| 0 <= j < d.len() implies targets(st, #[trigger] d[j]).len() > 0 by {
                assert(targets(st, hs[j]).len() > 0);
            }
        }
        if forall|j: int| 0 <= j < d.len() ==> targets(st, #[trigger] d[j]).len() > 0 {
            if targets(st, h).len() > 0 {
                assert forall|j: int| 0 <= j < hs.len() implies targets(st, #[trigger] hs[j]).len() > 0 by {
                    if j < d.len() {
                        assert(targets(st, d[j]).len() > 0);
                    }
                }
            }
        }
    }
}

proof fn lemma_scan_nodes_issues(st: GraphBuildState, ps: Seq<NodePlan>, k: nat)
    requires
        k <= ps.len(),
    ensures
        scan_nodes(st, ps, k).issues.len() == 0 <==> forall|i: int, j: int| 0 <= i < k && 0 <= j < node_hints(ps, i).len()
            ==> targets(st, #[trigger] node_hints(ps, i)[j]).len() > 0,
    decreases k,
{
    if k > 0 {
        let prev = scan_nodes(st, ps, (k - 1) as nat);
        lemma_scan_nodes_issues(st, ps, (k - 1) as nat);
        let hs = node_hints(ps, k - 1);
        lemma_scan_hints_issues(st, prev, ps[k - 1].id, hs);
        if forall|i: int, j: int| 0 <= i < k && 0 <= j < node_hints(ps, i).len()
            ==> targets(st, #[trigger] node_hints(ps, i)[j]).len() > 0 {
            assert forall|j: int| 0 <= j < hs.len() implies targets(st, #[trigger] hs[j]).len() > 0 by {
                assert(targets(st, node_hints(ps, k - 1)[j]).len() > 0);
            }
        }
    }
}

/// A graph is valid exactly when every declared dependency is registered and
/// no cycle runs through the dependencies: the report of a build state is
/// empty if and only if every hint of every node points to some node and the
/// graph's edges, as returned, close no cycle.
pub proof fn lemma_report_valid_exact(st: GraphBuildState)
    requires
        plans(st).len() <= usize::MAX,
        scan_nodes(st, plans(st), plans(st).len()).edges.len() <= usize::MAX,
    ensures
        report_issues(st).len() == 0
            <==> all_hints_bound(st) && !edges_cycle(sorted_edges(scan_nodes(st, plans(st), plans(st).len()).edges)),
{
    let ps = plans(st);
    lemma_report_parts(st);
    lemma_scan_nodes_issues(st, ps, ps.len());
}

} // verus!
