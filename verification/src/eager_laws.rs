//! What the plans of eager resolution are made of, stated over the
//! registrations themselves: the entry of a provider waits for exactly what
//! its single, named and dynamic hints point to, and a scoped plan starts from
//! exactly the given types that have a single binding.
use vstd::prelude::*;
use std::any::TypeId;
use crate::cycles::{lookup, lemma_lookup};
use crate::deps::DepsView;
use crate::eager::{eager_graph, eager_items, eager_roots_graph, root_ids, upsert, upsert_all, eager_deps_of};
use crate::graph::DependencyCardinality;
use crate::graph_build::targets;
use crate::meta::{DependencyHint, GraphBuildState};

verus! {

proof fn lemma_upsert_sets(g: DepsView, id: Seq<char>, d: Seq<Seq<char>>)
    ensures
        upsert(g, id, d).contains((id, d)),
{
    match lookup(g, id) {
        Some(i) => {
            lemma_lookup(g, id);
            assert(upsert(g, id, d)[i] == (id, d));
        },
        None => {
            assert(upsert(g, id, d)[g.len() as int] == (id, d));
        },
    }
}

proof fn lemma_upsert_keeps(g: DepsView, id: Seq<char>, d: Seq<Seq<char>>, e: (Seq<char>, Seq<Seq<char>>))
    requires
        g.contains(e),
        e.0 != id,
    ensures
        upsert(g, id, d).contains(e),
{
    let j = choose|j: int| 0 <= j < g.len() && g[j] == e;
    lemma_lookup(g, id);
    match lookup(g, id) {
        Some(i) => {
            assert(i != j);
            assert(upsert(g, id, d)[j] == e);
        },
        None => {
            assert(upsert(g, id, d)[j] == e);
        },
    }
}

/// After setting every item in turn, an item whose id no other item has is an entry.
proof fn lemma_upsert_all_keeps_item(g: DepsView, items: DepsView, j: int)
    requires
        0 <= j < items.len(),
        forall|k: int| 0 <= k < items.len() && k != j ==> items[k].0 != items[j].0,
    ensures
        upsert_all(g, items).contains(items[j]),
    decreases items.len(),
{
    let d = items.drop_last();
    if j == items.len() - 1 {
        lemma_upsert_sets(upsert_all(g, d), items.last().0, items.last().1);
    } else {
        assert forall|k: int| 0 <= k < d.len() && k != j implies d[k].0 != d[j].0 by {
            assert(d[k] == items[k]);
        }
        lemma_upsert_all_keeps_item(g, d, j);
        assert(d[j] == items[j]);
        lemma_upsert_keeps(upsert_all(g, d), items.last().0, items.last().1, items[j]);
    }
}

proof fn lemma_flatten_has<A>(ss: Seq<Seq<A>>, q: int, x: A)
    requires
        0 <= q < ss.len(),
        ss[q].contains(x),
    ensures
        ss.flatten().contains(x),
    decreases ss.len(),
{
    let j = choose|j: int| 0 <= j < ss[q].len() && ss[q][j] == x;
    if q == 0 {
        assert(ss.flatten() == ss[0] + ss.drop_first().flatten());
        assert(ss.flatten()[j] == x);
    } else {
        lemma_flatten_has(ss.drop_first(), q - 1, x);
        let f = ss.drop_first().flatten();
        let t = choose|t: int| 0 <= t < f.len() && f[t] == x;
        assert(ss.flatten() == ss[0] + f);
        assert(ss.flatten()[ss[0].len() + t] == x);
    }
}

proof fn lemma_flatten_member<A>(ss: Seq<Seq<A>>, x: A)
    requires
        ss.flatten().contains(x),
    ensures
        exists|q: int| 0 <= q < ss.len() && #[trigger] ss[q].contains(x),
    decreases ss.len(),
{
    let f = ss.drop_first().flatten();
    assert(ss.flatten() == ss[0] + f);
    let t = choose|t: int| 0 <= t < ss.flatten().len() && ss.flatten()[t] == x;
    if t < ss[0].len() {
        assert(ss[0][t] == x);
        assert(ss[0].contains(x));
    } else {
        assert(f[t - ss[0].len()] == x);
        lemma_flatten_member(ss.drop_first(), x);
        let q = choose|q: int| 0 <= q < ss.drop_first().len() && #[trigger] ss.drop_first()[q].contains(x);
        assert(ss[q + 1] == ss.drop_first()[q]);
    }
}

/// A hint orders resolution after its targets unless it asks for a whole set.
pub open spec fn orders_after(h: DependencyHint) -> bool {
    h.is_dynamic || h.cardinality == DependencyCardinality::One
}

/// The dependencies listed for a provider with hints `hs` are exactly the
/// targets of its hints that are not set hints.
proof fn lemma_eager_deps_are_targets(st: GraphBuildState, hs: Seq<DependencyHint>)
    ensures
        forall|t: Seq<char>| eager_deps_of(st, hs).contains(t) <==>
            exists|m: int| 0 <= m < hs.len() && orders_after(#[trigger] hs[m]) && targets(st, hs[m]).contains(t),
{
    let ss = hs.map_values(|h: DependencyHint| crate::eager::eager_targets(st, h));
    assert forall|t: Seq<char>| eager_deps_of(st, hs).contains(t) <==>
        exists|m: int| 0 <= m < hs.len() && orders_after(#[trigger] hs[m]) && targets(st, hs[m]).contains(t) by {
        if eager_deps_of(st, hs).contains(t) {
            lemma_flatten_member(ss, t);
            let q = choose|q: int| 0 <= q < ss.len() && #[trigger] ss[q].contains(t);
            assert(ss[q] == crate::eager::eager_targets(st, hs[q]));
            assert(orders_after(hs[q]) && targets(st, hs[q]).contains(t));
        }
        if exists|m: int| 0 <= m < hs.len() && orders_after(#[trigger] hs[m]) && targets(st, hs[m]).contains(t) {
            let m = choose|m: int| 0 <= m < hs.len() && orders_after(#[trigger] hs[m]) && targets(st, hs[m]).contains(t);
            assert(ss[m] == crate::eager::eager_targets(st, hs[m]));
            lemma_flatten_has(ss, m, t);
        }
    }
}

proof fn lemma_prefixes_differ(a: Seq<char>, b: Seq<char>, x: Seq<char>, y: Seq<char>)
    requires
        a.len() > 0,
        b.len() > 0,
        a[0] != b[0],
    ensures
        a + x != b + y,
{
    assert((a + x)[0] == a[0]);
    assert((b + y)[0] == b[0]);
}

/// A single provider waits in eager resolution for exactly what its hints
/// point to: when no other single provider has its type label, the eager
/// dependency map has the entry `single::<label>`, whose dependencies are the
/// targets of the provider's single, named and dynamic hints, and nothing else.
pub proof fn lemma_single_eager_entry(st: GraphBuildState, i: int)
    requires
        0 <= i < st.singles@.len(),
        forall|j: int| 0 <= j < st.singles@.len() && j != i ==> st.singles@[j].type_label@ != st.singles@[i].type_label@,
    ensures
        exists|k: int| 0 <= k < eager_graph(st).len() && #[trigger] eager_graph(st)[k].0 == "single::"@ + st.singles@[i].type_label@
            && forall|t: Seq<char>| eager_graph(st)[k].1.contains(t) <==>
                exists|m: int| 0 <= m < st.singles@[i].dependencies@.len()
                    && orders_after(#[trigger] st.singles@[i].dependencies@[m])
                    && targets(st, st.singles@[i].dependencies@[m]).contains(t),
{
    reveal_strlit("single::");
    reveal_strlit("named::");
    reveal_strlit("dynamic::");
    let items = eager_items(st);
    let ns = st.singles@.len();
    let m = st.singles@[i];
    let id = "single::"@ + m.type_label@;
    assert(items[i] == (id, eager_deps_of(st, m.dependencies@)));
    assert forall|k: int| 0 <= k < items.len() && k != i implies items[k].0 != items[i].0 by {
        if k < ns {
            assert(items[k].0 == "single::"@ + st.singles@[k].type_label@);
            if items[k].0 == items[i].0 {
                assert(("single::"@ + st.singles@[k].type_label@).subrange(8, items[k].0.len() as int) =~= st.singles@[k].type_label@);
                assert(("single::"@ + m.type_label@).subrange(8, items[i].0.len() as int) =~= m.type_label@);
            }
        } else if k < ns + st.named@.len() {
            let b = st.named@[k - ns];
            assert(items[k].0 == "named::"@ + b.meta.type_label@ + "::"@ + b.key.name@);
            lemma_prefixes_differ("named::"@, "single::"@, b.meta.type_label@ + "::"@ + b.key.name@, m.type_label@);
            assert("named::"@ + b.meta.type_label@ + "::"@ + b.key.name@ =~= "named::"@ + (b.meta.type_label@ + "::"@ + b.key.name@));
        } else {
            let d = st.dynamics@[k - ns - st.named@.len()];
            assert(items[k].0 == "dynamic::"@ + d.name@);
            lemma_prefixes_differ("dynamic::"@, "single::"@, d.name@, m.type_label@);
        }
    }
    let blanks = items.map_values(|e: (Seq<char>, Seq<Seq<char>>)| (e.0, Seq::<Seq<char>>::empty()));
    lemma_upsert_all_keeps_item(upsert_all(seq![], blanks), items, i);
    let g = eager_graph(st);
    assert(g.contains(items[i]));
    let k = choose|k: int| 0 <= k < g.len() && g[k] == items[i];
    lemma_eager_deps_are_targets(st, m.dependencies@);
    assert(g[k].0 == id);
}

/// A dynamic provider waits in eager resolution for exactly what its hints
/// point to: the eager dependency map has the entry `dynamic::<name>`, whose
/// dependencies are the targets of the provider's single, named and dynamic
/// hints, and nothing else.
pub proof fn lemma_dynamic_eager_entry(st: GraphBuildState, i: int)
    requires
        st.wf(),
        0 <= i < st.dynamics@.len(),
    ensures
        exists|k: int| 0 <= k < eager_graph(st).len() && #[trigger] eager_graph(st)[k].0 == "dynamic::"@ + st.dynamics@[i].name@
            && forall|t: Seq<char>| eager_graph(st)[k].1.contains(t) <==>
                exists|m: int| 0 <= m < st.dynamics@[i].dependencies@.len()
                    && orders_after(#[trigger] st.dynamics@[i].dependencies@[m])
                    && targets(st, st.dynamics@[i].dependencies@[m]).contains(t),
{
    reveal_strlit("single::");
    reveal_strlit("named::");
    reveal_strlit("dynamic::");
    let items = eager_items(st);
    let ns = st.singles@.len();
    let nn = st.named@.len();
    let d = st.dynamics@[i];
    let id = "dynamic::"@ + d.name@;
    let j = ns + nn + i;
    assert(items[j] == (id, eager_deps_of(st, d.dependencies@)));
    assert forall|k: int| 0 <= k < items.len() && k != j implies items[k].0 != items[j].0 by {
        if k < ns {
            let m = st.singles@[k];
            assert(items[k].0 == "single::"@ + m.type_label@);
            lemma_prefixes_differ("single::"@, "dynamic::"@, m.type_label@, d.name@);
        } else if k < ns + nn {
            let b = st.named@[k - ns];
            assert(items[k].0 == "named::"@ + b.meta.type_label@ + "::"@ + b.key.name@);
            lemma_prefixes_differ("named::"@, "dynamic::"@, b.meta.type_label@ + "::"@ + b.key.name@, d.name@);
            assert("named::"@ + b.meta.type_label@ + "::"@ + b.key.name@ =~= "named::"@ + (b.meta.type_label@ + "::"@ + b.key.name@));
        } else {
            let e = st.dynamics@[k - ns - nn];
            assert(items[k].0 == "dynamic::"@ + e.name@);
            if items[k].0 == items[j].0 {
                assert(("dynamic::"@ + e.name@).subrange(9, items[k].0.len() as int) =~= e.name@);
                assert(("dynamic::"@ + d.name@).subrange(9, items[j].0.len() as int) =~= d.name@);
                let a = k - ns - nn;
                if a < i {
                    assert(st.dynamics@[a].name@ != st.dynamics@[i].name@);
                } else {
                    assert(st.dynamics@[i].name@ != st.dynamics@[a].name@);
                }
            }
        }
    }
    let blanks = items.map_values(|e: (Seq<char>, Seq<Seq<char>>)| (e.0, Seq::<Seq<char>>::empty()));
    lemma_upsert_all_keeps_item(upsert_all(seq![], blanks), items, j);
    let g = eager_graph(st);
    assert(g.contains(items[j]));
    let k = choose|k: int| 0 <= k < g.len() && g[k] == items[j];
    lemma_eager_deps_are_targets(st, d.dependencies@);
    assert(g[k].0 == id);
}

/// The roots of a scoped plan are exactly the node ids `single::<label>` of
/// the given types that have a single binding; a type without one is skipped
/// and does not affect the others.
pub proof fn lemma_root_ids_exact(st: GraphBuildState, roots: Seq<TypeId>)
    requires
        st.wf(),
    ensures
        forall|x: Seq<char>| root_ids(st, roots).contains(x) <==>
            exists|k: int, i: int| 0 <= k < roots.len() && 0 <= i < st.singles@.len()
                && #[trigger] st.singles@[i].type_id == #[trigger] roots[k] && x == "single::"@ + st.singles@[i].type_label@,
    decreases roots.len(),
{
    if roots.len() > 0 {
        let d = roots.drop_last();
        lemma_root_ids_exact(st, d);
        let t = roots.last();
        assert forall|x: Seq<char>| root_ids(st, roots).contains(x) <==>
            exists|k: int, i: int| 0 <= k < roots.len() && 0 <= i < st.singles@.len()
                && #[trigger] st.singles@[i].type_id == #[trigger] roots[k] && x == "single::"@ + st.singles@[i].type_label@ by {
            let rest = root_ids(st, d);
            if root_ids(st, roots).contains(x) {
                let q = choose|q: int| 0 <= q < root_ids(st, roots).len() && root_ids(st, roots)[q] == x;
                if q < rest.len() {
                    assert(rest[q] == x);
                    let (k, i) = choose|k: int, i: int| 0 <= k < d.len() && 0 <= i < st.singles@.len()
                        && #[trigger] st.singles@[i].type_id == #[trigger] d[k] && x == "single::"@ + st.singles@[i].type_label@;
                    assert(roots[k] == d[k]);
                } else {
                    let i = choose|i: int| 0 <= i < st.singles@.len() && st.singles@[i].type_id == t;
                    assert(roots[roots.len() - 1] == t);
                }
            }
            if exists|k: int, i: int| 0 <= k < roots.len() && 0 <= i < st.singles@.len()
                && #[trigger] st.singles@[i].type_id == #[trigger] roots[k] && x == "single::"@ + st.singles@[i].type_label@ {
                let (k, i) = choose|k: int, i: int| 0 <= k < roots.len() && 0 <= i < st.singles@.len()
                    && #[trigger] st.singles@[i].type_id == #[trigger] roots[k] && x == "single::"@ + st.singles@[i].type_label@;
                if k < d.len() {
                    assert(d[k] == roots[k]);
                    assert(rest.contains(x));
                    let q = choose|q: int| 0 <= q < rest.len() && rest[q] == x;
                    match crate::graph_build::single_index(st, t) {
                        Some(c) => {
                            assert(root_ids(st, roots) == rest.push("single::"@ + st.singles@[c].type_label@));
                            assert(root_ids(st, roots)[q] == x);
                        },
                        None => {},
                    }
                } else {
                    assert(roots[k] == t);
                    let c = crate::graph_build::single_index(st, t).unwrap();
                    if c < i {
                        assert(st.singles@[c].type_id != st.singles@[i].type_id);
                    } else if i < c {
                        assert(st.singles@[i].type_id != st.singles@[c].type_id);
                    }
                    assert(root_ids(st, roots) == rest.push(x));
                    assert(root_ids(st, roots)[rest.len() as int] == x);
                }
            }
        }
    }
}

/// Scoped eager resolution plans nothing exactly when none of the given types
/// has a single binding; a type without one does not stop the others.
pub proof fn lemma_scoped_plan_exists(st: GraphBuildState, roots: Seq<TypeId>)
    requires
        st.wf(),
    ensures
        eager_roots_graph(st, roots) is Some <==>
            exists|k: int, i: int| 0 <= k < roots.len() && 0 <= i < st.singles@.len()
                && #[trigger] st.singles@[i].type_id == #[trigger] roots[k],
{
    lemma_root_ids_exact(st, roots);
    let ids = root_ids(st, roots);
    if exists|k: int, i: int| 0 <= k < roots.len() && 0 <= i < st.singles@.len()
        && #[trigger] st.singles@[i].type_id == #[trigger] roots[k] {
        let (k, i) = choose|k: int, i: int| 0 <= k < roots.len() && 0 <= i < st.singles@.len()
            && #[trigger] st.singles@[i].type_id == #[trigger] roots[k];
        assert(ids.contains("single::"@ + st.singles@[i].type_label@));
    }
    if ids.len() > 0 {
        assert(ids.contains(ids[0]));
    }
}

} // verus!
