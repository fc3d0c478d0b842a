//! Dependency maps from node ids to the ids they depend on, as used by eager
//! resolution and by cycle detection, with their reachability model.
use vstd::prelude::*;
use crate::text::{views, contains_string, lemma_unique_within_len};

verus! {

/// One node of a dependency map: its id and the ids it depends on, in order.
#[derive(Clone, Debug)]
pub struct DepEntry {
    pub node: String,
    pub deps: Vec<String>,
}

/// A map from node ids to their dependency lists; each id occurs once.
#[derive(Clone, Debug)]
pub struct NodeDeps {
    pub entries: Vec<DepEntry>,
}

/// The mathematical view of a dependency map: `(id, dependencies)` pairs.
pub type DepsView = Seq<(Seq<char>, Seq<Seq<char>>)>;

impl View for DepEntry {
    type V = (Seq<char>, Seq<Seq<char>>);

    open spec fn view(&self) -> (Seq<char>, Seq<Seq<char>>) {
        (self.node@, views(self.deps@))
    }
}

impl View for NodeDeps {
    type V = DepsView;

    open spec fn view(&self) -> DepsView {
        self.entries@.map_values(|e: DepEntry| e@)
    }
}

/// The ids of a dependency map, in entry order.
pub open spec fn keys(g: DepsView) -> Seq<Seq<char>> {
    g.map_values(|e: (Seq<char>, Seq<Seq<char>>)| e.0)
}

/// Ids are unique, as in a map.
pub open spec fn deps_wf(g: DepsView) -> bool {
    keys(g).no_duplicates()
}

/// `a` depends on `b`, and `b` is itself a node of the map.
#[verifier::opaque]
pub open spec fn edge(g: DepsView, a: Seq<char>, b: Seq<char>) -> bool {
    &&& exists|i: int| 0 <= i < g.len() && #[trigger] g[i].0 == a && g[i].1.contains(b)
    &&& keys(g).contains(b)
}

/// `p` is a non-empty walk along edges of `g` that starts at one of `roots`.
pub open spec fn walk_from(g: DepsView, roots: Seq<Seq<char>>, p: Seq<Seq<char>>) -> bool {
    &&& p.len() > 0
    &&& roots.contains(p[0])
    &&& forall|i: int| 0 <= i < p.len() - 1 ==> edge(g, #[trigger] p[i], p[i + 1])
}

/// `n` is one of `roots`, or is reached from one by following edges.
#[verifier::opaque]
pub open spec fn reaches(g: DepsView, roots: Seq<Seq<char>>, n: Seq<char>) -> bool {
    exists|p: Seq<Seq<char>>| #[trigger] walk_from(g, roots, p) && p.last() == n
}

/// `p` is a closed walk of at least one step along edges of `g`.
pub open spec fn is_cycle(g: DepsView, p: Seq<Seq<char>>) -> bool {
    &&& p.len() >= 2
    &&& p[0] == p.last()
    &&& forall|i: int| 0 <= i < p.len() - 1 ==> edge(g, #[trigger] p[i], p[i + 1])
}

/// Some node of `g` reaches itself along edges.
pub open spec fn has_cycle(g: DepsView) -> bool {
    exists|p: Seq<Seq<char>>| #[trigger] is_cycle(g, p)
}

/// Two entries of a well-formed map with the same id are the same entry.
pub(crate) proof fn lemma_entry_unique(g: DepsView, i: int, j: int)
    requires
        deps_wf(g),
        0 <= i < g.len(),
        0 <= j < g.len(),
        g[i].0 == g[j].0,
    ensures
        i == j,
{
    assert(keys(g)[i] == g[i].0);
    assert(keys(g)[j] == g[j].0);
}

impl NodeDeps {
    /// The position of the entry for `name`, if any.
    pub fn find(&self, name: &String) -> (res: Option<usize>)
        ensures
            match res {
                Some(i) => i < self@.len() && self@[i as int].0 == name@,
                None => !keys(self@).contains(name@),
            },
    {
        let mut i: usize = 0;
        while i < self.entries.len()
            invariant
                i <= self.entries.len(),
                forall|j: int| 0 <= j < i ==> self@[j].0 != name@,
            decreases self.entries.len() - i,
        {
            if self.entries[i].node == *name {
                return Some(i);
            }
            i = i + 1;
        }
        proof {
            if keys(self@).contains(name@) {
                let j = choose|j: int| 0 <= j < keys(self@).len() && keys(self@)[j] == name@;
                assert(self@[j].0 == name@);
            }
        }
        None
    }
}

proof fn lemma_walk_extend(g: DepsView, roots: Seq<Seq<char>>, p: Seq<Seq<char>>, b: Seq<char>)
    requires
        walk_from(g, roots, p),
        edge(g, p.last(), b),
    ensures
        walk_from(g, roots, p.push(b)),
        p.push(b).last() == b,
{
    reveal(edge);
    reveal(reaches);
    let q = p.push(b);
    assert forall|i: int| 0 <= i < q.len() - 1 implies edge(g, #[trigger] q[i], q[i + 1]) by {
        if i < p.len() - 1 {
            assert(q[i] == p[i] && q[i + 1] == p[i + 1]);
        } else {
            assert(q[i] == p.last());
        }
    }
}

/// A set that holds every root and is closed under edges holds the end of
/// every walk from the roots.
proof fn lemma_closed_holds_walk(g: DepsView, roots: Seq<Seq<char>>, s: Seq<Seq<char>>, p: Seq<Seq<char>>)
    requires
        walk_from(g, roots, p),
        forall|r: Seq<char>| roots.contains(r) ==> s.contains(r),
        forall|a: Seq<char>, b: Seq<char>| s.contains(a) && edge(g, a, b) ==> s.contains(b),
    ensures
        s.contains(p.last()),
    decreases p.len(),
{
    reveal(edge);
    reveal(reaches);
    if p.len() > 1 {
        let q = p.drop_last();
        assert forall|i: int| 0 <= i < q.len() - 1 implies edge(g, #[trigger] q[i], q[i + 1]) by {
            assert(q[i] == p[i] && q[i + 1] == p[i + 1]);
        }
        lemma_closed_holds_walk(g, roots, s, q);
        assert(edge(g, p[p.len() - 2], p[p.len() - 1]));
    }
}

/// Appends to `queue` each dependency of entry `i` that has an entry itself
/// and is not yet in `reachable`.
fn enqueue_deps(node_deps: &NodeDeps, i: usize, reachable: &Vec<String>, queue: &mut Vec<String>)
    requires
        i < node_deps@.len(),
    ensures
        views(old(queue)@).len() <= views(final(queue)@).len(),
        views(old(queue)@) == views(final(queue)@).subrange(0, old(queue)@.len() as int),
        forall|j: int| old(queue).len() <= j < final(queue).len() ==>
            keys(node_deps@).contains(#[trigger] views(final(queue)@)[j])
                && node_deps@[i as int].1.contains(views(final(queue)@)[j]),
        forall|b: Seq<char>| node_deps@[i as int].1.contains(b) && keys(node_deps@).contains(b)
            ==> views(reachable@).contains(b)
                || exists|j: int| old(queue).len() <= j < final(queue).len() && #[trigger] views(final(queue)@)[j] == b,
{
    let ghost g = node_deps@;
    let ghost q0 = views(queue@);
    let ghost mut qv = views(queue@);
    let deps = &node_deps.entries[i].deps;
    let ghost dv = views(deps@);
    assert(g[i as int].1 == dv);
    let mut k: usize = 0;
    while k < deps.len()
        invariant
            g == node_deps@,
            i < g.len(),
            dv == views(deps@),
            g[i as int].1 == dv,
            k <= deps.len(),
            qv == views(queue@),
            q0.len() <= qv.len(),
            q0 == qv.subrange(0, q0.len() as int),
            forall|j: int| q0.len() <= j < qv.len() ==>
                keys(g).contains(#[trigger] qv[j]) && dv.contains(qv[j]),
            forall|m: int| 0 <= m < k && keys(g).contains(#[trigger] dv[m]) ==>
                views(reachable@).contains(dv[m])
                    || exists|j: int| q0.len() <= j < qv.len() && #[trigger] qv[j] == dv[m],
        decreases deps.len() - k,
    {
        let d = &deps[k];
        assert(dv[k as int] == d@);
        let known = node_deps.find(d);
        let ghost prev_qv = qv;
        if known.is_some() && !contains_string(reachable, d) {
            queue.push(d.clone());
            proof {
                qv = qv.push(d@);
                assert forall|j: int| 0 <= j < prev_qv.len() implies #[trigger] qv[j] == prev_qv[j] by {}
                assert(views(queue@) =~= qv);
                assert(qv[qv.len() - 1] == d@);
                let ki = known.unwrap();
                assert(keys(g)[ki as int] == d@);
            }
        }
        proof {
            assert forall|m: int| 0 <= m < k + 1 && keys(g).contains(#[trigger] dv[m]) implies
                views(reachable@).contains(dv[m])
                    || exists|j: int| q0.len() <= j < qv.len() && #[trigger] qv[j] == dv[m] by {
                if !views(reachable@).contains(dv[m]) {
                    if m < k {
                        let j = choose|j: int| q0.len() <= j < prev_qv.len() && #[trigger] prev_qv[j] == dv[m];
                        assert(qv[j] == dv[m]);
                    } else {
                        assert(qv[qv.len() - 1] == dv[m]);
                    }
                }
            }
        }
        k = k + 1;
    }
    proof {
        assert forall|b: Seq<char>| g[i as int].1.contains(b) && keys(g).contains(b)
            implies views(reachable@).contains(b)
                || exists|j: int| q0.len() <= j < qv.len() && #[trigger] qv[j] == b by {
            let m = choose|m: int| 0 <= m < dv.len() && dv[m] == b;
            assert(dv[m] == b);
        }
    }
}

proof fn lemma_after_enqueue(
    g: DepsView,
    rs: Seq<Seq<char>>,
    universe: Seq<Seq<char>>,
    old_rv: Seq<Seq<char>>,
    rv: Seq<Seq<char>>,
    old_qv: Seq<Seq<char>>,
    qv: Seq<Seq<char>>,
    head: int,
    node: Seq<char>,
    i: int,
)
    requires
        deps_wf(g),
        universe == rs + keys(g),
        0 <= i < g.len(),
        g[i].0 == node,
        1 <= head <= old_qv.len(),
        old_qv[head - 1] == node,
        rs.len() <= old_qv.len(),
        rs == old_qv.subrange(0, rs.len() as int),
        old_qv.len() <= qv.len(),
        old_qv == qv.subrange(0, old_qv.len() as int),
        forall|j: int| old_qv.len() <= j < qv.len() ==> keys(g).contains(#[trigger] qv[j]) && g[i].1.contains(qv[j]),
        forall|b: Seq<char>| g[i].1.contains(b) && keys(g).contains(b)
            ==> rv.contains(b) || exists|j: int| old_qv.len() <= j < qv.len() && #[trigger] qv[j] == b,
        reaches(g, rs, node),
        forall|j: int| 0 <= j < old_qv.len() ==> reaches(g, rs, #[trigger] old_qv[j]),
        forall|j: int| 0 <= j < old_qv.len() ==> universe.contains(#[trigger] old_qv[j]),
        forall|j: int| 0 <= j < head - 1 ==> old_rv.contains(#[trigger] old_qv[j]),
        forall|n: Seq<char>| rv.contains(n) <==> old_rv.contains(n) || n == node,
        forall|a: Seq<char>, b: Seq<char>|
            old_rv.contains(a) && edge(g, a, b) ==> old_rv.contains(b)
                || exists|j: int| head - 1 <= j < old_qv.len() && #[trigger] old_qv[j] == b,
    ensures
        rs == qv.subrange(0, rs.len() as int),
        forall|j: int| 0 <= j < head ==> rv.contains(#[trigger] qv[j]),
        forall|j: int| 0 <= j < qv.len() ==> reaches(g, rs, #[trigger] qv[j]),
        forall|j: int| 0 <= j < qv.len() ==> universe.contains(#[trigger] qv[j]),
        forall|a: Seq<char>, b: Seq<char>|
            rv.contains(a) && edge(g, a, b) ==> rv.contains(b)
                || exists|j: int| head <= j < qv.len() && #[trigger] qv[j] == b,
{
    reveal(edge);
    reveal(reaches);
    assert forall|j: int| 0 <= j < old_qv.len() implies qv[j] == old_qv[j] by {
        assert(old_qv[j] == qv.subrange(0, old_qv.len() as int)[j]);
    }
    assert(rs =~= qv.subrange(0, rs.len() as int));
    assert forall|j: int| 0 <= j < head implies rv.contains(#[trigger] qv[j]) by {
        assert(qv[j] == old_qv[j]);
    }
    assert forall|j: int| 0 <= j < qv.len() implies reaches(g, rs, #[trigger] qv[j]) && universe.contains(qv[j]) by {
        if j < old_qv.len() {
            assert(qv[j] == old_qv[j]);
        } else {
            let d = qv[j];
            assert(edge(g, node, d));
            let p = choose|p: Seq<Seq<char>>| #[trigger] walk_from(g, rs, p) && p.last() == node;
            lemma_walk_extend(g, rs, p, d);
            let ki = choose|ki: int| 0 <= ki < keys(g).len() && keys(g)[ki] == d;
            assert(universe[rs.len() + ki] == d);
        }
    }
    assert forall|a: Seq<char>, b: Seq<char>|
        rv.contains(a) && edge(g, a, b) implies rv.contains(b)
            || exists|j: int| head <= j < qv.len() && #[trigger] qv[j] == b by {
        if a == node {
            let i2 = choose|i2: int| 0 <= i2 < g.len() && #[trigger] g[i2].0 == a && g[i2].1.contains(b);
            assert(keys(g)[i2] == keys(g)[i]);
        } else {
            assert(old_rv.contains(a));
            if !old_rv.contains(b) {
                let j = choose|j: int| head - 1 <= j < old_qv.len() && #[trigger] old_qv[j] == b;
                if j == head - 1 {
                    assert(b == node);
                } else {
                    assert(qv[j] == b);
                }
            }
        }
    }
}

proof fn lemma_no_entry(
    g: DepsView,
    old_rv: Seq<Seq<char>>,
    rv: Seq<Seq<char>>,
    qv: Seq<Seq<char>>,
    head: int,
    node: Seq<char>,
)
    requires
        !keys(g).contains(node),
        1 <= head <= qv.len(),
        qv[head - 1] == node,
        forall|n: Seq<char>| rv.contains(n) <==> old_rv.contains(n) || n == node,
        forall|a: Seq<char>, b: Seq<char>|
            old_rv.contains(a) && edge(g, a, b) ==> old_rv.contains(b)
                || exists|j: int| head - 1 <= j < qv.len() && #[trigger] qv[j] == b,
    ensures
        forall|a: Seq<char>, b: Seq<char>|
            rv.contains(a) && edge(g, a, b) ==> rv.contains(b)
                || exists|j: int| head <= j < qv.len() && #[trigger] qv[j] == b,
{
    reveal(edge);
    reveal(reaches);
    assert forall|a: Seq<char>, b: Seq<char>|
        rv.contains(a) && edge(g, a, b) implies rv.contains(b)
            || exists|j: int| head <= j < qv.len() && #[trigger] qv[j] == b by {
        if a == node {
            let i2 = choose|i2: int| 0 <= i2 < g.len() && #[trigger] g[i2].0 == a && g[i2].1.contains(b);
            assert(keys(g)[i2] == a);
        } else {
            assert(old_rv.contains(a));
            if !old_rv.contains(b) {
                let j = choose|j: int| head - 1 <= j < qv.len() && #[trigger] qv[j] == b;
                if j == head - 1 {
                    assert(b == node);
                }
            }
        }
    }
}

proof fn lemma_push_new(old_rv: Seq<Seq<char>>, rv: Seq<Seq<char>>, node: Seq<char>)
    requires
        rv == old_rv.push(node),
        old_rv.no_duplicates(),
        !old_rv.contains(node),
    ensures
        rv.no_duplicates(),
        forall|n: Seq<char>| rv.contains(n) <==> old_rv.contains(n) || n == node,
{
    reveal(edge);
    reveal(reaches);
    assert(rv[old_rv.len() as int] == node);
    assert forall|n: Seq<char>| rv.contains(n) implies old_rv.contains(n) || n == node by {
        let j = choose|j: int| 0 <= j < rv.len() && rv[j] == n;
        if j < old_rv.len() {
            assert(old_rv[j] == n);
        }
    }
    assert forall|n: Seq<char>| old_rv.contains(n) implies rv.contains(n) by {
        let j = choose|j: int| 0 <= j < old_rv.len() && old_rv[j] == n;
        assert(rv[j] == n);
    }
}

/// The nodes reachable from `roots` by following dependency edges, each once.
///
/// Every root is included, whether or not it has an entry; from a node with an
/// entry, each dependency that has an entry itself is followed.
#[verifier::rlimit(60)]
pub fn transitive_closure(roots: &Vec<String>, node_deps: &NodeDeps) -> (res: Vec<String>)
    requires
        deps_wf(node_deps@),
    ensures
        views(res@).no_duplicates(),
        forall|n: Seq<char>| views(res@).contains(n) <==> reaches(node_deps@, views(roots@), n),
{
    let ghost g = node_deps@;
    let ghost rs = views(roots@);
    let ghost universe = rs + keys(g);
    let mut reachable: Vec<String> = Vec::new();
    let mut queue: Vec<String> = roots.clone();
    let ghost mut qv = views(queue@);
    let ghost mut rv: Seq<Seq<char>> = seq![];
    let mut head: usize = 0;
    proof {
        reveal(reaches);
        assert(qv =~= rs);
        assert(views(reachable@) =~= rv);
        assert forall|j: int| 0 <= j < qv.len() implies reaches(g, rs, #[trigger] qv[j]) by {
            let p = seq![rs[j]];
            assert(walk_from(g, rs, p));
        }
        assert forall|j: int| 0 <= j < qv.len() implies universe.contains(#[trigger] qv[j]) by {
            assert(universe[j] == rs[j]);
        }
    }
    while head < queue.len()
        invariant
            g == node_deps@,
            deps_wf(g),
            rs == views(roots@),
            universe == rs + keys(g),
            qv == views(queue@),
            rv == views(reachable@),
            head <= qv.len(),
            rs.len() <= qv.len(),
            rs == qv.subrange(0, rs.len() as int),
            rv.no_duplicates(),
            forall|j: int| 0 <= j < head ==> rv.contains(#[trigger] qv[j]),
            forall|j: int| 0 <= j < qv.len() ==> reaches(g, rs, #[trigger] qv[j]),
            forall|j: int| 0 <= j < qv.len() ==> universe.contains(#[trigger] qv[j]),
            forall|n: Seq<char>| rv.contains(n) ==> reaches(g, rs, n) && universe.contains(n),
            forall|a: Seq<char>, b: Seq<char>|
                rv.contains(a) && edge(g, a, b) ==> rv.contains(b)
                    || exists|j: int| head <= j < qv.len() && #[trigger] qv[j] == b,
        decreases universe.len() - rv.len(), qv.len() - head,
    {
        proof {
            lemma_unique_within_len(rv, universe);
        }
        let node = queue[head].clone();
        assert(qv[head as int] == node@);
        head = head + 1;
        if contains_string(&reachable, &node) {
            continue;
        }
        let ghost old_rv = rv;
        let ghost old_qv = qv;
        reachable.push(node.clone());
        proof {
            rv = rv.push(node@);
            assert(views(reachable@) =~= rv);
            lemma_push_new(old_rv, rv, node@);
        }
        match node_deps.find(&node) {
            Some(i) => {
                enqueue_deps(node_deps, i, &reachable, &mut queue);
                proof {
                    qv = views(queue@);
                    lemma_after_enqueue(g, rs, universe, old_rv, rv, old_qv, qv, head as int, node@, i as int);
                }
            },
            None => {
                proof {
                    lemma_no_entry(g, old_rv, rv, qv, head as int, node@);
                }
            },
        }
        proof {
            lemma_unique_within_len(rv, universe);
        }
    }
    proof {
        reveal(reaches);
        assert forall|r: Seq<char>| rs.contains(r) implies rv.contains(r) by {
            let j = choose|j: int| 0 <= j < rs.len() && rs[j] == r;
            assert(qv[j] == r);
        }
        assert forall|n: Seq<char>| reaches(g, rs, n) implies rv.contains(n) by {
            let p = choose|p: Seq<Seq<char>>| #[trigger] walk_from(g, rs, p) && p.last() == n;
            lemma_closed_holds_walk(g, rs, rv, p);
        }
    }
    reachable
}

} // verus!
