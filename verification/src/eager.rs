//! Planning eager resolution: the dependency map of all typed and dynamic
//! providers, its restriction to what given roots need, and the decisions
//! taken between waves.
use vstd::prelude::*;
use vstd::string::*;
use std::any::TypeId;
use crate::cycles::{lookup, lemma_lookup};
use crate::deps::{DepEntry, DepsView, NodeDeps, deps_wf, keys, reaches, transitive_closure};
use crate::error::{Error, ErrorKind};
use crate::graph::DependencyCardinality;
use crate::graph_build::{single_index, targets, find_single, dep_targets};
use crate::meta::{DependencyHint, GraphBuildState};
use crate::text::{contains_string, decimal, decimal_string, join, join_strings, views};

verus! {

/// The node ids a hint orders eager resolution after: as in the dependency
/// graph, except that set dependencies are not followed.
pub open spec fn eager_targets(st: GraphBuildState, h: DependencyHint) -> Seq<Seq<char>> {
    if !h.is_dynamic && h.cardinality == DependencyCardinality::All {
        seq![]
    } else {
        targets(st, h)
    }
}

/// The node ids that a list of hints orders resolution after, in order.
pub open spec fn eager_deps_of(st: GraphBuildState, hs: Seq<DependencyHint>) -> Seq<Seq<char>> {
    hs.map_values(|h: DependencyHint| eager_targets(st, h)).flatten()
}

/// `g` with the entry of `id` set to `deps`, appended if `id` has none.
pub open spec fn upsert(g: DepsView, id: Seq<char>, deps: Seq<Seq<char>>) -> DepsView {
    match lookup(g, id) {
        Some(i) => g.update(i, (id, deps)),
        None => g.push((id, deps)),
    }
}

/// `g` after setting each `(id, deps)` of `items` in turn.
pub open spec fn upsert_all(g: DepsView, items: DepsView) -> DepsView
    decreases items.len(),
{
    if items.len() == 0 {
        g
    } else {
        let h = upsert_all(g, items.drop_last());
        upsert(h, items.last().0, items.last().1)
    }
}

/// The `(id, dependencies)` items of eager resolution, typed singles first,
/// then named bindings, then dynamic providers.
pub open spec fn eager_items(st: GraphBuildState) -> DepsView {
    st.singles@.map_values(|m: crate::meta::ProviderGraphMeta| ("single::"@ + m.type_label@, eager_deps_of(st, m.dependencies@)))
        + st.named@.map_values(|b: crate::meta::NamedBinding|
            ("named::"@ + b.meta.type_label@ + "::"@ + b.key.name@, eager_deps_of(st, b.meta.dependencies@)))
        + st.dynamics@.map_values(|d: crate::meta::DynamicProviderGraphMeta| ("dynamic::"@ + d.name@, eager_deps_of(st, d.dependencies@)))
}

/// The eager dependency map: every provider's node id with the node ids it
/// must be resolved after. Set bindings take no part.
pub open spec fn eager_graph(st: GraphBuildState) -> DepsView {
    upsert_all(upsert_all(seq![], eager_items(st).map_values(|e: (Seq<char>, Seq<Seq<char>>)| (e.0, Seq::<Seq<char>>::empty()))), eager_items(st))
}

proof fn lemma_upsert_wf(g: DepsView, id: Seq<char>, deps: Seq<Seq<char>>)
    requires
        deps_wf(g),
    ensures
        deps_wf(upsert(g, id, deps)),
{
    lemma_lookup(g, id);
    let r = upsert(g, id, deps);
    match lookup(g, id) {
        Some(i) => {
            assert(keys(r) =~= keys(g));
        },
        None => {
            assert(keys(r) =~= keys(g).push(id));
            assert forall|a: int, b: int| 0 <= a < b < keys(r).len() implies keys(r)[a] != keys(r)[b] by {
                if b == keys(g).len() {
                    assert(keys(g)[a] == keys(r)[a]);
                }
            }
        },
    }
}

/// Sets the dependencies of `id`, appending an entry if it has none.
fn upsert_entry(g: &mut NodeDeps, id: String, deps: Vec<String>)
    requires
        deps_wf(old(g)@),
    ensures
        final(g)@ == upsert(old(g)@, id@, views(deps@)),
        deps_wf(final(g)@),
{
    let ghost g0 = g@;
    proof {
        lemma_lookup(g0, id@);
        lemma_upsert_wf(g0, id@, views(deps@));
    }
    match g.find(&id) {
        Some(i) => {
            proof {
                let li = lookup(g0, id@).unwrap();
                assert(keys(g0)[li] == keys(g0)[i as int]);
            }
            let entry = DepEntry { node: id, deps };
            g.entries.set(i, entry);
            assert(g@ =~= upsert(g0, entry.node@, views(entry.deps@)));
        },
        None => {
            let entry = DepEntry { node: id, deps };
            g.entries.push(entry);
            assert(g@ =~= upsert(g0, entry.node@, views(entry.deps@)));
        },
    }
}


/// The node ids that a list of hints orders resolution after, in order.
fn eager_deps(st: &GraphBuildState, hints: &Vec<DependencyHint>) -> (res: Vec<String>)
    requires
        st.wf(),
    ensures
        views(res@) == eager_deps_of(*st, hints@),
{
    broadcast use Seq::lemma_flatten_push;
    let ghost parts = hints@.map_values(|h: DependencyHint| eager_targets(*st, h));
    let mut res: Vec<String> = Vec::new();
    let mut k: usize = 0;
    assert(parts.subrange(0, 0).flatten() =~= Seq::<Seq<char>>::empty());
    while k < hints.len()
        invariant
            st.wf(),
            parts == hints@.map_values(|h: DependencyHint| eager_targets(*st, h)),
            k <= hints.len(),
            views(res@) == parts.subrange(0, k as int).flatten(),
        decreases hints.len() - k,
    {
        let h = &hints[k];
        let ghost before = views(res@);
        if h.is_dynamic || h.cardinality != DependencyCardinality::All {
            let ts = dep_targets(st, h);
            let mut t: usize = 0;
            while t < ts.len()
                invariant
                    t <= ts.len(),
                    views(res@) == before + views(ts@).subrange(0, t as int),
                decreases ts.len() - t,
            {
                let ghost b = views(res@);
                res.push(ts[t].clone());
                assert(views(res@) =~= b.push(ts@[t as int]@));
                assert(views(ts@).subrange(0, t + 1) =~= views(ts@).subrange(0, t as int).push(ts@[t as int]@));
                t = t + 1;
            }
            assert(views(ts@).subrange(0, t as int) =~= views(ts@));
            assert(parts[k as int] == views(ts@));
        } else {
            assert(parts[k as int] =~= Seq::<Seq<char>>::empty());
            assert(views(res@) =~= before + parts[k as int]);
        }
        assert(parts.subrange(0, k + 1) =~= parts.subrange(0, k as int).push(parts[k as int]));
        proof {
            parts.subrange(0, k as int).lemma_flatten_push(parts[k as int]);
        }
        k = k + 1;
    }
    assert(parts.subrange(0, k as int) =~= parts);
    res
}

fn eager_items_exec(st: &GraphBuildState) -> (res: Vec<DepEntry>)
    requires
        st.wf(),
    ensures
        res@.map_values(|e: DepEntry| e@) == eager_items(*st),
{
    let ghost target = eager_items(*st);
    let mut res: Vec<DepEntry> = Vec::new();
    let mut i: usize = 0;
    while i < st.singles.len()
        invariant
            st.wf(),
            target == eager_items(*st),
            i <= st.singles.len(),
            res@.map_values(|e: DepEntry| e@) == target.subrange(0, i as int),
        decreases st.singles.len() - i,
    {
        let m = &st.singles[i];
        let mut id = String::from_str("single::");
        id.append(m.type_label);
        let deps = eager_deps(st, &m.dependencies);
        let entry = DepEntry { node: id, deps };
        let ghost before = res@.map_values(|e: DepEntry| e@);
        res.push(entry);
        assert(res@.map_values(|e: DepEntry| e@) =~= before.push(entry@));
        assert(target.subrange(0, i + 1) =~= target.subrange(0, i as int).push(target[i as int]));
        i = i + 1;
    }
    let ghost n1: int = st.singles@.len() as int;
    let mut j: usize = 0;
    while j < st.named.len()
        invariant
            st.wf(),
            target == eager_items(*st),
            n1 == st.singles@.len(),
            j <= st.named.len(),
            res@.map_values(|e: DepEntry| e@) == target.subrange(0, n1 + j),
        decreases st.named.len() - j,
    {
        let b = &st.named[j];
        let mut id = String::from_str("named::");
        id.append(b.meta.type_label);
        id.append("::");
        id.append(b.key.name.as_str());
        let deps = eager_deps(st, &b.meta.dependencies);
        let entry = DepEntry { node: id, deps };
        let ghost before = res@.map_values(|e: DepEntry| e@);
        res.push(entry);
        assert(res@.map_values(|e: DepEntry| e@) =~= before.push(entry@));
        assert(target[n1 + j] == entry@);
        assert(target.subrange(0, n1 + j + 1) =~= target.subrange(0, n1 + j).push(target[n1 + j]));
        j = j + 1;
    }
    let ghost n2: int = n1 + st.named@.len();
    let mut d: usize = 0;
    while d < st.dynamics.len()
        invariant
            st.wf(),
            target == eager_items(*st),
            n2 == st.singles@.len() + st.named@.len(),
            d <= st.dynamics.len(),
            res@.map_values(|e: DepEntry| e@) == target.subrange(0, n2 + d),
        decreases st.dynamics.len() - d,
    {
        let dm = &st.dynamics[d];
        let mut id = String::from_str("dynamic::");
        id.append(dm.name.as_str());
        let deps = eager_deps(st, &dm.dependencies);
        let entry = DepEntry { node: id, deps };
        let ghost before = res@.map_values(|e: DepEntry| e@);
        res.push(entry);
        assert(res@.map_values(|e: DepEntry| e@) =~= before.push(entry@));
        assert(target[n2 + d] == entry@);
        assert(target.subrange(0, n2 + d + 1) =~= target.subrange(0, n2 + d).push(target[n2 + d]));
        d = d + 1;
    }
    assert(target.subrange(0, n2 + d) =~= target);
    res
}

/// Builds the eager dependency map of a build state: every typed single,
/// named and dynamic provider with the node ids it must be resolved after.
pub fn build_eager_graph(st: &GraphBuildState) -> (res: NodeDeps)
    requires
        st.wf(),
    ensures
        res@ == eager_graph(*st),
        deps_wf(res@),
{
    let items = eager_items_exec(st);
    let ghost iv = eager_items(*st);
    let ghost blanks = iv.map_values(|e: (Seq<char>, Seq<Seq<char>>)| (e.0, Seq::<Seq<char>>::empty()));
    let mut g = NodeDeps { entries: Vec::new() };
    assert(g@ =~= upsert_all(seq![], blanks.subrange(0, 0)));
    let mut i: usize = 0;
    while i < items.len()
        invariant
            iv == items@.map_values(|e: DepEntry| e@),
            blanks == iv.map_values(|e: (Seq<char>, Seq<Seq<char>>)| (e.0, Seq::<Seq<char>>::empty())),
            i <= items.len(),
            g@ == upsert_all(seq![], blanks.subrange(0, i as int)),
            deps_wf(g@),
        decreases items.len() - i,
    {
        assert(blanks.subrange(0, i + 1).drop_last() =~= blanks.subrange(0, i as int));
        let empty: Vec<String> = Vec::new();
        assert(views(empty@) =~= Seq::<Seq<char>>::empty());
        upsert_entry(&mut g, items[i].node.clone(), empty);
        i = i + 1;
    }
    assert(blanks.subrange(0, i as int) =~= blanks);
    let ghost first = g@;
    let mut j: usize = 0;
    assert(g@ =~= upsert_all(first, iv.subrange(0, 0)));
    while j < items.len()
        invariant
            iv == items@.map_values(|e: DepEntry| e@),
            j <= items.len(),
            g@ == upsert_all(first, iv.subrange(0, j as int)),
            deps_wf(g@),
        decreases items.len() - j,
    {
        assert(iv.subrange(0, j + 1).drop_last() =~= iv.subrange(0, j as int));
        let mut deps: Vec<String> = Vec::new();
        let src = &items[j].deps;
        let mut k: usize = 0;
        while k < src.len()
            invariant
                k <= src.len(),
                views(deps@) == views(src@).subrange(0, k as int),
            decreases src.len() - k,
        {
            let ghost b = views(deps@);
            deps.push(src[k].clone());
            assert(views(deps@) =~= b.push(src@[k as int]@));
            assert(views(src@).subrange(0, k + 1) =~= views(src@).subrange(0, k as int).push(src@[k as int]@));
            k = k + 1;
        }
        assert(views(src@).subrange(0, k as int) =~= views(src@));
        upsert_entry(&mut g, items[j].node.clone(), deps);
        j = j + 1;
    }
    assert(iv.subrange(0, j as int) =~= iv);
    g
}


/// The node ids of the roots that have a single binding, in order.
pub open spec fn root_ids(st: GraphBuildState, roots: Seq<TypeId>) -> Seq<Seq<char>>
    decreases roots.len(),
{
    if roots.len() == 0 {
        seq![]
    } else {
        let rest = root_ids(st, roots.drop_last());
        match single_index(st, roots.last()) {
            Some(i) => rest.push("single::"@ + st.singles@[i].type_label@),
            None => rest,
        }
    }
}

/// The entries of `g` whose id lies in `r`, in order.
pub open spec fn restrict(g: DepsView, r: Set<Seq<char>>) -> DepsView
    decreases g.len(),
{
    if g.len() == 0 {
        seq![]
    } else {
        let rest = restrict(g.drop_last(), r);
        if r.contains(g.last().0) { rest.push(g.last()) } else { rest }
    }
}

proof fn lemma_restrict_wf(g: DepsView, r: Set<Seq<char>>)
    requires
        deps_wf(g),
    ensures
        deps_wf(restrict(g, r)),
        forall|n: Seq<char>| keys(restrict(g, r)).contains(n) ==> keys(g).contains(n),
    decreases g.len(),
{
    if g.len() > 0 {
        let d = g.drop_last();
        assert(keys(d) =~= keys(g).drop_last());
        assert forall|a: int, b: int| 0 <= a < b < keys(d).len() implies keys(d)[a] != keys(d)[b] by {
            assert(keys(g)[a] == keys(d)[a] && keys(g)[b] == keys(d)[b]);
        }
        lemma_restrict_wf(d, r);
        let rest = restrict(d, r);
        assert(!keys(d).contains(g.last().0)) by {
            if keys(d).contains(g.last().0) {
                let j = choose|j: int| 0 <= j < keys(d).len() && keys(d)[j] == g.last().0;
                assert(keys(g)[j] == keys(g)[g.len() - 1]);
            }
        }
        if r.contains(g.last().0) {
            let res = rest.push(g.last());
            assert(keys(res) =~= keys(rest).push(g.last().0));
            assert forall|a: int, b: int| 0 <= a < b < keys(res).len() implies keys(res)[a] != keys(res)[b] by {
                if b == keys(rest).len() {
                    assert(keys(rest)[a] == keys(res)[a]);
                    assert(keys(d).contains(keys(rest)[a]));
                }
            }
            assert forall|n: Seq<char>| keys(res).contains(n) implies keys(g).contains(n) by {
                let j = choose|j: int| 0 <= j < keys(res).len() && keys(res)[j] == n;
                if j < keys(rest).len() {
                    assert(keys(rest)[j] == n);
                    assert(keys(d).contains(n));
                    let k = choose|k: int| 0 <= k < keys(d).len() && keys(d)[k] == n;
                    assert(keys(g)[k] == n);
                } else {
                    assert(keys(g)[g.len() - 1] == n);
                }
            }
        } else {
            assert forall|n: Seq<char>| keys(rest).contains(n) implies keys(g).contains(n) by {
                assert(keys(d).contains(n));
                let k = choose|k: int| 0 <= k < keys(d).len() && keys(d)[k] == n;
                assert(keys(g)[k] == n);
            }
        }
    }
}

/// A restriction keeps exactly the entries of `g` whose id lies in `r`.
proof fn lemma_restrict_entries(g: DepsView, r: Set<Seq<char>>)
    ensures
        forall|e: (Seq<char>, Seq<Seq<char>>)| #[trigger] restrict(g, r).contains(e) <==> g.contains(e) && r.contains(e.0),
    decreases g.len(),
{
    if g.len() > 0 {
        let d = g.drop_last();
        lemma_restrict_entries(d, r);
        assert(g == d.push(g.last()));
        assert forall|e: (Seq<char>, Seq<Seq<char>>)| #[trigger] restrict(g, r).contains(e) <==> g.contains(e) && r.contains(e.0) by {
            lemma_seq_push_contains(d, g.last(), e);
            if r.contains(g.last().0) {
                lemma_seq_push_contains(restrict(d, r), g.last(), e);
            }
        }
    }
}

proof fn lemma_seq_push_contains<A>(s: Seq<A>, x: A, n: A)
    ensures
        s.push(x).contains(n) <==> s.contains(n) || n == x,
{
    if s.push(x).contains(n) {
        let j = choose|j: int| 0 <= j < s.push(x).len() && s.push(x)[j] == n;
        if j < s.len() {
            assert(s[j] == n);
        }
    }
    if s.contains(n) {
        let j = choose|j: int| 0 <= j < s.len() && s[j] == n;
        assert(s.push(x)[j] == n);
    }
    if n == x {
        assert(s.push(x)[s.len() as int] == n);
    }
}

/// Scoped eager resolution plans exactly what its roots need: there is
/// nothing to do when no root has a single binding; otherwise the plan holds,
/// unchanged, the entries of the eager dependency map of exactly the nodes
/// that the roots reach.
pub proof fn lemma_eager_plan_exact(st: GraphBuildState, roots: Seq<TypeId>)
    ensures
        eager_roots_graph(st, roots) is None <==> root_ids(st, roots).len() == 0,
        eager_roots_graph(st, roots) matches Some(h) ==> forall|e: (Seq<char>, Seq<Seq<char>>)|
            #[trigger] h.contains(e) <==> eager_graph(st).contains(e) && reaches(eager_graph(st), root_ids(st, roots), e.0),
{
    let g = eager_graph(st);
    let ids = root_ids(st, roots);
    if ids.len() > 0 {
        let r = Set::new(|n: Seq<char>| reaches(g, ids, n));
        lemma_restrict_entries(g, r);
    }
}

/// What eager resolution for the given roots resolves: `None` when no root
/// has a single binding (nothing to do); otherwise the eager dependency map
/// restricted to the nodes reachable from the roots.
pub open spec fn eager_roots_graph(st: GraphBuildState, roots: Seq<TypeId>) -> Option<DepsView> {
    let ids = root_ids(st, roots);
    if ids.len() == 0 {
        None
    } else {
        Some(restrict(eager_graph(st), Set::new(|n: Seq<char>| reaches(eager_graph(st), ids, n))))
    }
}

/// Plans eager resolution for `roots`: the part of the eager dependency map
/// that the roots need, or `None` when no root has a single binding.
pub fn plan_eager_roots(st: &GraphBuildState, roots: &[TypeId]) -> (res: Option<NodeDeps>)
    requires
        st.wf(),
    ensures
        match res {
            Some(g) => eager_roots_graph(*st, roots@) == Some(g@) && deps_wf(g@),
            None => eager_roots_graph(*st, roots@) is None,
        },
{
    let graph = build_eager_graph(st);
    let mut ids: Vec<String> = Vec::new();
    let mut i: usize = 0;
    while i < roots.len()
        invariant
            st.wf(),
            i <= roots.len(),
            views(ids@) == root_ids(*st, roots@.subrange(0, i as int)),
        decreases roots.len() - i,
    {
        assert(roots@.subrange(0, i + 1).drop_last() =~= roots@.subrange(0, i as int));
        assert(roots@.subrange(0, i + 1).last() == roots@[i as int]);
        match find_single(st, &roots[i]) {
            Some(k) => {
                let mut id = String::from_str("single::");
                id.append(st.singles[k].type_label);
                let ghost before = views(ids@);
                ids.push(id);
                assert(views(ids@) =~= before.push(id@));
            },
            None => {},
        }
        i = i + 1;
    }
    assert(roots@.subrange(0, i as int) =~= roots@);
    if ids.len() == 0 {
        return None;
    }
    let reachable = transitive_closure(&ids, &graph);
    let ghost r = Set::new(|n: Seq<char>| reaches(graph@, views(ids@), n));
    let mut kept = NodeDeps { entries: Vec::new() };
    let mut j: usize = 0;
    assert(kept@ =~= restrict(graph@.subrange(0, 0), r));
    while j < graph.entries.len()
        invariant
            j <= graph.entries.len(),
            forall|n: Seq<char>| views(reachable@).contains(n) <==> r.contains(n),
            kept@ == restrict(graph@.subrange(0, j as int), r),
        decreases graph.entries.len() - j,
    {
        assert(graph@.subrange(0, j + 1).drop_last() =~= graph@.subrange(0, j as int));
        let entry = &graph.entries[j];
        if contains_string(&reachable, &entry.node) {
            let mut deps: Vec<String> = Vec::new();
            let mut k: usize = 0;
            while k < entry.deps.len()
                invariant
                    k <= entry.deps.len(),
                    views(deps@) == views(entry.deps@).subrange(0, k as int),
                decreases entry.deps.len() - k,
            {
                let ghost b = views(deps@);
                deps.push(entry.deps[k].clone());
                assert(views(deps@) =~= b.push(entry.deps@[k as int]@));
                assert(views(entry.deps@).subrange(0, k + 1) =~= views(entry.deps@).subrange(0, k as int).push(entry.deps@[k as int]@));
                k = k + 1;
            }
            assert(views(entry.deps@).subrange(0, k as int) =~= views(entry.deps@));
            let copy = DepEntry { node: entry.node.clone(), deps };
            let ghost before = kept@;
            kept.entries.push(copy);
            assert(kept@ =~= before.push(copy@));
        }
        j = j + 1;
    }
    assert(graph@.subrange(0, j as int) =~= graph@);
    proof {
        lemma_restrict_wf(graph@, r);
    }
    Some(kept)
}

/// The nodes of a wave that have a resolver, in wave order.
pub fn scheduled(wave: &Vec<String>, resolver_ids: &Vec<String>) -> (res: Vec<String>)
    ensures
        views(res@) == views(wave@).filter(|n: Seq<char>| views(resolver_ids@).contains(n)),
{
    let ghost f = |n: Seq<char>| views(resolver_ids@).contains(n);
    let mut res: Vec<String> = Vec::new();
    let mut i: usize = 0;
    while i < wave.len()
        invariant
            f == (|n: Seq<char>| views(resolver_ids@).contains(n)),
            i <= wave.len(),
            views(res@) == views(wave@).subrange(0, i as int).filter(f),
        decreases wave.len() - i,
    {
        let ghost before = views(res@);
        assert(views(wave@).subrange(0, i + 1) =~= views(wave@).subrange(0, i as int).push(wave@[i as int]@));
        proof {
            views(wave@).subrange(0, i as int).lemma_filter_push(wave@[i as int]@, f);
        }
        if contains_string(resolver_ids, &wave[i]) {
            res.push(wave[i].clone());
            assert(views(res@) =~= before.push(wave@[i as int]@));
        }
        i = i + 1;
    }
    assert(views(wave@).subrange(0, i as int) =~= views(wave@));
    res
}

/// The message of a failed eager-resolution wave.
pub open spec fn wave_failure_message(wave_index: nat, errors: Seq<Error>) -> Seq<char> {
    "Eager resolution wave "@ + decimal(wave_index) + " failed: "@
        + join(errors.map_values(|e: Error| e.message@), "; "@)
}

/// The outcome of a wave: no error when every resolver succeeded, else one
/// eager-resolution error listing the failures' messages.
pub fn wave_failure(wave_index: usize, errors: &Vec<Error>) -> (res: Option<Error>)
    ensures
        errors@.len() == 0 ==> res is None,
        errors@.len() > 0 ==> (res matches Some(e) && e.kind == ErrorKind::EagerResolutionFailed
            && e.message@ == wave_failure_message(wave_index as nat, errors@)),
{
    if errors.len() == 0 {
        return None;
    }
    let mut messages: Vec<String> = Vec::new();
    let mut i: usize = 0;
    while i < errors.len()
        invariant
            i <= errors.len(),
            views(messages@) == errors@.subrange(0, i as int).map_values(|e: Error| e.message@),
        decreases errors.len() - i,
    {
        let ghost before = views(messages@);
        messages.push(errors[i].message.clone());
        assert(views(messages@) =~= before.push(errors@[i as int].message@));
        assert(errors@.subrange(0, i + 1).map_values(|e: Error| e.message@)
            =~= errors@.subrange(0, i as int).map_values(|e: Error| e.message@).push(errors@[i as int].message@));
        i = i + 1;
    }
    assert(errors@.subrange(0, i as int) =~= errors@);
    let mut m = String::from_str("Eager resolution wave ");
    let digits = decimal_string(wave_index);
    m.append(digits.as_str());
    m.append(" failed: ");
    let joined = join_strings(&messages, "; ");
    m.append(joined.as_str());
    Some(Error::new(ErrorKind::EagerResolutionFailed, m))
}

} // verus!
