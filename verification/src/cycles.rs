//! Depth-first detection of dependency cycles over a dependency map, recording
//! each distinct cycle once in a validation report.
use vstd::prelude::*;
use vstd::string::*;
use crate::deps::{NodeDeps, DepsView, keys, deps_wf};
use crate::graph::{GraphValidationIssue, GraphValidationIssueKind, GraphValidationReport};
use crate::text::{views, contains_string, join, join_strings};

verus! {

/// The view of a validation issue: kind, node id, message.
pub type IssueView = (GraphValidationIssueKind, Option<Seq<char>>, Seq<char>);

/// The view of a validation issue.
pub open spec fn issue_view(i: GraphValidationIssue) -> IssueView {
    (i.kind, match i.node_id { Some(s) => Some(s@), None => None }, i.message@)
}

/// The views of a sequence of issues.
pub open spec fn issue_views(s: Seq<GraphValidationIssue>) -> Seq<IssueView> {
    s.map_values(|i: GraphValidationIssue| issue_view(i))
}

/// What a depth-first search carries from call to call: the finished nodes,
/// the cycle signatures already reported, and the issues reported.
pub struct DfsState {
    pub visited: Set<Seq<char>>,
    pub seen: Set<Seq<char>>,
    pub issues: Seq<IssueView>,
}

/// The position of the first entry with id `n`, if any.
pub open spec fn lookup(g: DepsView, n: Seq<char>) -> Option<int>
    decreases g.len(),
{
    if g.len() == 0 {
        None
    } else {
        match lookup(g.drop_last(), n) {
            Some(i) => Some(i),
            None => if g.last().0 == n { Some(g.len() - 1) } else { None },
        }
    }
}

/// The dependencies listed for `n`; none when it has no entry.
pub open spec fn nbrs(g: DepsView, n: Seq<char>) -> Seq<Seq<char>> {
    match lookup(g, n) {
        Some(i) => g[i].1,
        None => seq![],
    }
}

/// The cycle closed by an edge from the top of `stack` back to `nb`: the
/// stack from the first occurrence of `nb` on, then `nb` again.
pub open spec fn cycle_of(stack: Seq<Seq<char>>, nb: Seq<char>) -> Seq<Seq<char>> {
    stack.subrange(stack.index_of_first(nb).unwrap(), stack.len() as int).push(nb)
}

/// The message reporting a cycle.
pub open spec fn cycle_message(cycle: Seq<Seq<char>>) -> Seq<char> {
    "Graph validation failed: circular dependency detected: "@ + join(cycle, " -> "@)
}

/// Reports the cycle through `nb`, found while at `start`, unless a cycle with
/// the same signature was reported before.
pub open spec fn record_cycle(start: Seq<char>, stack: Seq<Seq<char>>, nb: Seq<char>, st: DfsState) -> DfsState {
    let cycle = cycle_of(stack, nb);
    let signature = join(cycle, "->"@);
    if st.seen.contains(signature) {
        st
    } else {
        DfsState {
            visited: st.visited,
            seen: st.seen.insert(signature),
            issues: st.issues.push((GraphValidationIssueKind::CircularDependency, Some(start), cycle_message(cycle))),
        }
    }
}

/// The measure of a search with `stack` open: ids with entries not on it.
pub open spec fn dfs_measure(g: DepsView, stack: Seq<Seq<char>>) -> nat {
    keys(g).to_set().difference(stack.to_set()).len()
}

/// `lookup` finds an entry exactly when the id is a node, and the entry has that id.
pub proof fn lemma_lookup(g: DepsView, n: Seq<char>)
    ensures
        match lookup(g, n) {
            Some(i) => 0 <= i < g.len() && g[i].0 == n && keys(g).contains(n),
            None => !keys(g).contains(n),
        },
    decreases g.len(),
{
    if g.len() > 0 {
        lemma_lookup(g.drop_last(), n);
        if keys(g).contains(n) && lookup(g.drop_last(), n) is None {
            let j = choose|j: int| 0 <= j < keys(g).len() && keys(g)[j] == n;
            if j < g.len() - 1 {
                assert(keys(g.drop_last())[j] == n);
            }
        }
        if let Some(i) = lookup(g, n) {
            assert(keys(g)[i] == n);
        }
    }
}

/// Opening a node that has an entry and is not yet open shrinks the search measure.
pub proof fn lemma_measure_decreases(g: DepsView, stack: Seq<Seq<char>>, start: Seq<char>)
    requires
        keys(g).contains(start),
        !stack.contains(start),
    ensures
        dfs_measure(g, stack.push(start)) < dfs_measure(g, stack),
{
    let u = keys(g).to_set();
    let a = u.difference(stack.to_set());
    let b = u.difference(stack.push(start).to_set());
    assert(b =~= a.remove(start)) by {
        assert forall|x: Seq<char>| stack.push(start).to_set().contains(x) <==> stack.to_set().contains(x) || x == start by {
            if stack.push(start).contains(x) {
                let j = choose|j: int| 0 <= j < stack.push(start).len() && stack.push(start)[j] == x;
                if j < stack.len() {
                    assert(stack[j] == x);
                }
            }
            if stack.contains(x) {
                let j = choose|j: int| 0 <= j < stack.len() && stack[j] == x;
                assert(stack.push(start)[j] == x);
            }
            if x == start {
                assert(stack.push(start)[stack.len() as int] == x);
            }
        }
    }
    assert(a.contains(start)) by {
        assert(u.contains(start));
    }
    assert(a.finite()) by {
        vstd::set_lib::lemma_len_subset(a, u);
    }
}

/// A depth-first search from `start` with `stack` open (the path to it).
pub open spec fn dfs(g: DepsView, start: Seq<char>, stack: Seq<Seq<char>>, st: DfsState) -> DfsState
    decreases dfs_measure(g, stack), 1nat, 0nat,
{
    if st.visited.contains(start) || stack.contains(start) {
        st
    } else {
        let done = dfs_nbrs(g, start, 0, stack, st);
        DfsState { visited: done.visited.insert(start), seen: done.seen, issues: done.issues }
    }
}

/// The search from `start` over its dependencies from position `i` on.
pub open spec fn dfs_nbrs(g: DepsView, start: Seq<char>, i: nat, stack: Seq<Seq<char>>, st: DfsState) -> DfsState
    decreases dfs_measure(g, stack), 0nat, nbrs(g, start).len() - i,
{
    if i >= nbrs(g, start).len() || stack.contains(start) {
        st
    } else {
        let nb = nbrs(g, start)[i as int];
        let open = stack.push(start);
        let next = if open.contains(nb) {
            record_cycle(start, open, nb, st)
        } else if !st.visited.contains(nb) {
            proof {
                lemma_lookup(g, start);
                lemma_measure_decreases(g, stack, start);
            }
            dfs(g, nb, open, st)
        } else {
            st
        };
        dfs_nbrs(g, start, i + 1, stack, next)
    }
}


/// Cycle detection started from each of the first `k` ids in turn.
pub open spec fn cycle_pass(adj: DepsView, ids: Seq<Seq<char>>, k: nat, init: DfsState) -> DfsState
    decreases k,
{
    if k == 0 {
        init
    } else {
        dfs(adj, ids[k - 1], seq![], cycle_pass(adj, ids, (k - 1) as nat, init))
    }
}

/// The search state held by the vectors of an ongoing cycle detection.
pub open spec fn state_of(visited: Seq<String>, seen: Seq<String>, report: GraphValidationReport) -> DfsState {
    DfsState { visited: views(visited).to_set(), seen: views(seen).to_set(), issues: issue_views(report.issues@) }
}

/// The position of the first string equal to `s`.
fn first_position(v: &Vec<String>, s: &String) -> (res: usize)
    requires
        views(v@).contains(s@),
    ensures
        Some(res as int) == views(v@).index_of_first(s@),
        res < v.len(),
{
    proof {
        views(v@).index_of_first_ensures(s@);
    }
    let mut i: usize = 0;
    while i < v.len()
        invariant
            views(v@).contains(s@),
            i <= v.len(),
            forall|j: int| 0 <= j < i ==> views(v@)[j] != s@,
            match views(v@).index_of_first(s@) {
                Some(index) => 0 <= index < views(v@).len() && views(v@)[index] == s@
                    && forall|j: int| 0 <= j < index ==> views(v@)[j] != s@,
                None => false,
            },
        decreases v.len() - i,
    {
        if v[i] == *s {
            let ghost index = views(v@).index_of_first(s@).unwrap();
            assert(views(v@)[i as int] == s@);
            assert(index == i);
            return i;
        }
        assert(views(v@)[i as int] == v@[i as int]@);
        i = i + 1;
    }
    let ghost index = views(v@).index_of_first(s@).unwrap();
    assert(views(v@)[index] == s@);
    0
}

/// Copies the strings of `v` from position `from` on.
fn tail_from(v: &Vec<String>, from: usize) -> (res: Vec<String>)
    requires
        from <= v.len(),
    ensures
        views(res@) == views(v@).subrange(from as int, v.len() as int),
{
    let mut res: Vec<String> = Vec::new();
    let mut i: usize = from;
    while i < v.len()
        invariant
            from <= i <= v.len(),
            views(res@) == views(v@).subrange(from as int, i as int),
        decreases v.len() - i,
    {
        let ghost before = views(res@);
        res.push(v[i].clone());
        assert(views(res@) =~= before.push(v@[i as int]@));
        assert(views(v@).subrange(from as int, i + 1) =~= views(v@).subrange(from as int, i as int).push(views(v@)[i as int]));
        i = i + 1;
    }
    res
}

proof fn lemma_views_push(v: Seq<String>, s: String)
    ensures
        views(v.push(s)) == views(v).push(s@),
        views(v.push(s)).to_set() == views(v).to_set().insert(s@),
{
    broadcast use vstd::seq_lib::group_seq_properties;
    assert(views(v.push(s)) =~= views(v).push(s@));
    assert(views(v).push(s@).to_set() =~= views(v).to_set().insert(s@)) by {
        assert forall|x: Seq<char>| views(v).push(s@).contains(x) <==> views(v).contains(x) || x == s@ by {
            if views(v).push(s@).contains(x) {
                let j = choose|j: int| 0 <= j < views(v).push(s@).len() && views(v).push(s@)[j] == x;
                if j < views(v).len() {
                    assert(views(v)[j] == x);
                }
            }
            if views(v).contains(x) {
                let j = choose|j: int| 0 <= j < views(v).len() && views(v)[j] == x;
                assert(views(v).push(s@)[j] == x);
            }
            if x == s@ {
                assert(views(v).push(s@)[views(v).len() as int] == x);
            }
        }
    }
}

pub(crate) proof fn lemma_issue_views_push(v: Seq<GraphValidationIssue>, i: GraphValidationIssue)
    ensures
        issue_views(v.push(i)) == issue_views(v).push(issue_view(i)),
{
    assert(issue_views(v.push(i)) =~= issue_views(v).push(issue_view(i)));
}

/// Searches depth-first from `start`, reporting each newly found cycle once.
///
/// `stack` (mirrored by `visiting`) is the path to `start`; finished nodes are
/// added to `visited`. A dependency on a node of the open path closes a cycle,
/// which is reported unless its signature was already seen.
pub fn detect_cycles(
    start: &str,
    adjacency: &NodeDeps,
    visiting: &mut Vec<String>,
    visited: &mut Vec<String>,
    stack: &mut Vec<String>,
    seen_signatures: &mut Vec<String>,
    report: &mut GraphValidationReport,
)
    requires
        deps_wf(adjacency@),
        views(old(visiting)@) == views(old(stack)@),
        !views(old(stack)@).contains(start@),
    ensures
        views(final(visiting)@) == views(old(visiting)@),
        views(final(stack)@) == views(old(stack)@),
        state_of(final(visited)@, final(seen_signatures)@, *final(report))
            == dfs(adjacency@, start@, views(old(stack)@), state_of(old(visited)@, old(seen_signatures)@, *old(report))),
    decreases dfs_measure(adjacency@, views(old(stack)@)),
{
    let ghost g = adjacency@;
    let ghost stack0 = views(stack@);
    let ghost st0 = state_of(visited@, seen_signatures@, *report);
    let s = String::from_str(start);
    if contains_string(visited, &s) {
        return;
    }
    visiting.push(s.clone());
    stack.push(s.clone());
    proof {
        lemma_views_push(old(visiting)@, s);
        lemma_views_push(old(stack)@, s);
    }
    let ghost open = stack0.push(start@);
    match adjacency.find(&s) {
        Some(idx) => {
            proof {
                lemma_lookup(g, start@);
                assert(keys(g)[idx as int] == start@);
                assert(lookup(g, start@) == Some(idx as int)) by {
                    let li = lookup(g, start@).unwrap();
                    assert(keys(g)[li] == start@);
                }
            }
            let neighbors = &adjacency.entries[idx].deps;
            assert(nbrs(g, start@) == views(neighbors@));
            let mut i: usize = 0;
            while i < neighbors.len()
                invariant
                    g == adjacency@,
                    deps_wf(g),
                    keys(g).contains(start@),
                    !stack0.contains(start@),
                    stack0 == views(old(stack)@),
                    open == stack0.push(start@),
                    nbrs(g, start@) == views(neighbors@),
                    views(visiting@) == open,
                    views(stack@) == open,
                    i <= neighbors.len(),
                    dfs_nbrs(g, start@, 0, stack0, st0)
                        == dfs_nbrs(g, start@, i as nat, stack0, state_of(visited@, seen_signatures@, *report)),
                decreases neighbors.len() - i,
            {
                let neighbor = &neighbors[i];
                assert(nbrs(g, start@)[i as int] == neighbor@);
                let ghost cur = state_of(visited@, seen_signatures@, *report);
                if contains_string(visiting, neighbor) {
                    let pos = first_position(stack, neighbor);
                    let mut cycle = tail_from(stack, pos);
                    let ghost tail = views(cycle@);
                    cycle.push(neighbor.clone());
                    proof {
                        lemma_views_push(cycle@.drop_last(), *neighbor);
                        assert(cycle@.drop_last().push(*neighbor) == cycle@);
                        assert(views(cycle@) == cycle_of(open, neighbor@));
                    }
                    let signature = join_strings(&cycle, "->");
                    if !contains_string(seen_signatures, &signature) {
                        let ghost old_seen = seen_signatures@;
                        let ghost old_issues = report.issues@;
                        seen_signatures.push(signature);
                        let mut message = String::from_str("Graph validation failed: circular dependency detected: ");
                        let chain = join_strings(&cycle, " -> ");
                        message.append(chain.as_str());
                        let issue = GraphValidationIssue {
                            kind: GraphValidationIssueKind::CircularDependency,
                            node_id: Some(String::from_str(start)),
                            message,
                        };
                        report.issues.push(issue);
                        proof {
                            lemma_views_push(old_seen, signature);
                            lemma_issue_views_push(old_issues, issue);
                            assert(state_of(visited@, seen_signatures@, *report) == record_cycle(start@, open, neighbor@, cur));
                        }
                    }
                    i = i + 1;
                    continue;
                }
                if !contains_string(visited, neighbor) {
                    proof {
                        lemma_measure_decreases(g, stack0, start@);
                        assert(dfs_measure(g, views(stack@)) < dfs_measure(g, stack0));
                    }
                    detect_cycles(neighbor.as_str(), adjacency, visiting, visited, stack, seen_signatures, report);
                }
                i = i + 1;
            }
        },
        None => {
            proof {
                lemma_lookup(g, start@);
            }
        },
    }
    let ghost done = state_of(visited@, seen_signatures@, *report);
    assert(done == dfs_nbrs(g, start@, 0, stack0, st0));
    let ghost pre_stack = stack@;
    let ghost pre_visiting = visiting@;
    stack.pop();
    visiting.pop();
    proof {
        assert(stack@ == pre_stack.drop_last());
        assert(visiting@ == pre_visiting.drop_last());
        assert(views(pre_stack) == open);
        assert(views(stack@) =~= views(pre_stack).drop_last());
        assert(views(visiting@) =~= views(pre_visiting).drop_last());
        assert(open.drop_last() =~= stack0);
    }
    let ghost before_visited = visited@;
    visited.push(s);
    proof {
        lemma_views_push(before_visited, s);
    }
}

} // verus!
