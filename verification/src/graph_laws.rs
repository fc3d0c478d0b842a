//! What the dependency graph of a build state is made of, stated over the
//! registrations themselves: where each kind of dependency hint points, and
//! which node stands for each registered provider.
use vstd::prelude::*;
use std::any::TypeId;
use crate::graph::DependencyCardinality;
use crate::graph_build::{BindingView, NodePlan, plans, targets, single_keys, named_keys, dynamic_keys, set_keys};
use crate::meta::{DependencyHint, GraphBuildState};
use crate::order::{stable_order, lemma_stable_order_sorted};
use crate::text::decimal;

verus! {

/// A dependency on a dynamic provider points to that provider's node when a
/// dynamic provider of its name is registered, and to nothing otherwise.
pub proof fn lemma_dynamic_hint_targets(st: GraphBuildState, h: DependencyHint)
    requires
        h.is_dynamic,
    ensures
        match h.name {
            Some(n) => {
                &&& (exists|i: int| 0 <= i < st.dynamics@.len() && st.dynamics@[i].name@ == n@)
                    ==> targets(st, h) == seq!["dynamic::"@ + n@]
                &&& !(exists|i: int| 0 <= i < st.dynamics@.len() && st.dynamics@[i].name@ == n@)
                    ==> targets(st, h).len() == 0
            },
            None => targets(st, h).len() == 0,
        },
{
}

/// A dependency on the single binding of a type points to the node of the
/// provider registered for that type, and to nothing when there is none.
pub proof fn lemma_single_hint_targets(st: GraphBuildState, h: DependencyHint)
    requires
        st.wf(),
        !h.is_dynamic,
        h.cardinality == DependencyCardinality::One,
        h.name is None,
    ensures
        forall|i: int| 0 <= i < st.singles@.len() && st.singles@[i].type_id == h.type_id
            ==> targets(st, h) == seq!["single::"@ + st.singles@[i].type_label@],
        !(exists|i: int| 0 <= i < st.singles@.len() && st.singles@[i].type_id == h.type_id)
            ==> targets(st, h).len() == 0,
{
    assert forall|i: int| 0 <= i < st.singles@.len() && st.singles@[i].type_id == h.type_id
        implies targets(st, h) == seq!["single::"@ + st.singles@[i].type_label@] by {
        let j = choose|j: int| 0 <= j < st.singles@.len() && st.singles@[j].type_id == h.type_id;
        if j < i {
            assert(st.singles@[j].type_id != st.singles@[i].type_id);
        } else if i < j {
            assert(st.singles@[i].type_id != st.singles@[j].type_id);
        }
    }
}

/// A dependency on a named binding points to the node of the provider
/// registered for that type under that name, and to nothing when there is none.
pub proof fn lemma_named_hint_targets(st: GraphBuildState, h: DependencyHint)
    requires
        st.wf(),
        !h.is_dynamic,
        h.cardinality == DependencyCardinality::One,
        h.name is Some,
    ensures
        forall|i: int| 0 <= i < st.named@.len() && st.named@[i].key.type_id == h.type_id
            && st.named@[i].key.name@ == h.name.unwrap()@
            ==> targets(st, h) == seq!["named::"@ + st.named@[i].meta.type_label@ + "::"@ + h.name.unwrap()@],
        !(exists|i: int| 0 <= i < st.named@.len() && st.named@[i].key.type_id == h.type_id
            && st.named@[i].key.name@ == h.name.unwrap()@) ==> targets(st, h).len() == 0,
{
    let n = h.name.unwrap()@;
    assert forall|i: int| 0 <= i < st.named@.len() && st.named@[i].key.type_id == h.type_id
        && st.named@[i].key.name@ == n
        implies targets(st, h) == seq!["named::"@ + st.named@[i].meta.type_label@ + "::"@ + n] by {
        let j = choose|j: int| 0 <= j < st.named@.len() && st.named@[j].key.type_id == h.type_id
            && st.named@[j].key.name@ == n;
        if j < i {
            assert(!(st.named@[j].key.type_id == st.named@[i].key.type_id && st.named@[j].key.name@ == st.named@[i].key.name@));
        } else if i < j {
            assert(!(st.named@[i].key.type_id == st.named@[j].key.type_id && st.named@[i].key.name@ == st.named@[j].key.name@));
        }
    }
}

/// A dependency on every set binding of a type points to each member's node,
/// in member order, and to nothing when the type has no set.
pub proof fn lemma_set_hint_targets(st: GraphBuildState, h: DependencyHint)
    requires
        st.wf(),
        !h.is_dynamic,
        h.cardinality == DependencyCardinality::All,
    ensures
        forall|i: int| 0 <= i < st.sets@.len() && st.sets@[i].type_id == h.type_id ==> {
            &&& targets(st, h).len() == st.sets@[i].metas@.len()
            &&& forall|k: int| 0 <= k < st.sets@[i].metas@.len() ==>
                #[trigger] targets(st, h)[k] == "set::"@ + st.sets@[i].metas@[0].type_label@ + "::"@ + decimal(k as nat)
        },
        !(exists|i: int| 0 <= i < st.sets@.len() && st.sets@[i].type_id == h.type_id) ==> targets(st, h).len() == 0,
{
    assert forall|i: int| 0 <= i < st.sets@.len() && st.sets@[i].type_id == h.type_id implies {
        &&& targets(st, h).len() == st.sets@[i].metas@.len()
        &&& forall|k: int| 0 <= k < st.sets@[i].metas@.len() ==>
            #[trigger] targets(st, h)[k] == "set::"@ + st.sets@[i].metas@[0].type_label@ + "::"@ + decimal(k as nat)
    } by {
        let j = choose|j: int| 0 <= j < st.sets@.len() && st.sets@[j].type_id == h.type_id;
        if j < i {
            assert(st.sets@[j].type_id != st.sets@[i].type_id);
        } else if i < j {
            assert(st.sets@[i].type_id != st.sets@[j].type_id);
        }
    }
}

proof fn lemma_flatten_contains<A>(ss: Seq<Seq<A>>, q: int, x: A)
    requires
        0 <= q < ss.len(),
        ss[q].contains(x),
    ensures
        ss.flatten().contains(x),
    decreases ss.len(),
{
    let j = choose|j: int| 0 <= j < ss[q].len() && ss[q][j] == x;
    if q == 0 {
        assert(ss.flatten() == ss[0] + ss.drop_first().flatten());
        assert(ss.flatten()[j] == x);
    } else {
        lemma_flatten_contains(ss.drop_first(), q - 1, x);
        let f = ss.drop_first().flatten();
        let t = choose|t: int| 0 <= t < f.len() && f[t] == x;
        assert(ss.flatten() == ss[0] + f);
        assert(ss.flatten()[ss[0].len() + t] == x);
    }
}

proof fn lemma_ordered_map_contains<B>(keys: Seq<Seq<Seq<char>>>, n: nat, f: spec_fn(usize) -> B, i: int)
    requires
        n <= keys.len(),
        n <= usize::MAX,
        0 <= i < n,
    ensures
        stable_order(keys, n).map_values(f).contains(f(i as usize)),
{
    lemma_stable_order_sorted(keys, n);
    let order = stable_order(keys, n);
    assert(order.contains(i as usize));
    let q = choose|q: int| 0 <= q < order.len() && order[q] == i as usize;
    assert(order.map_values(f)[q] == f(i as usize));
}

proof fn lemma_concat_contains<A>(a: Seq<A>, b: Seq<A>, x: A)
    requires
        a.contains(x) || b.contains(x),
    ensures
        (a + b).contains(x),
{
    if a.contains(x) {
        let j = choose|j: int| 0 <= j < a.len() && a[j] == x;
        assert((a + b)[j] == x);
    } else {
        let j = choose|j: int| 0 <= j < b.len() && b[j] == x;
        assert((a + b)[a.len() + j] == x);
    }
}

/// Every registered provider has its node, which carries the provider's own
/// type label, scope, binding and dependency hints: a single binding of type
/// label `T` is the node `single::T`, a named binding `named::T::<name>`, the
/// member at position `k` of a set `set::<first member's T>::k`, and a dynamic
/// provider `dynamic::<name>`, labelled by its name.
pub proof fn lemma_providers_have_nodes(st: GraphBuildState)
    requires
        st.singles@.len() <= usize::MAX,
        st.named@.len() <= usize::MAX,
        st.sets@.len() <= usize::MAX,
        st.dynamics@.len() <= usize::MAX,
    ensures
        forall|i: int| #![trigger st.singles@[i]] 0 <= i < st.singles@.len() ==> plans(st).contains(NodePlan {
            id: "single::"@ + st.singles@[i].type_label@,
            type_label: st.singles@[i].type_label@,
            scope: st.singles@[i].scope,
            binding: BindingView::Single,
            hints: st.singles@[i].dependencies@,
        }),
        forall|i: int| #![trigger st.named@[i]] 0 <= i < st.named@.len() ==> plans(st).contains(NodePlan {
            id: "named::"@ + st.named@[i].meta.type_label@ + "::"@ + st.named@[i].key.name@,
            type_label: st.named@[i].meta.type_label@,
            scope: st.named@[i].meta.scope,
            binding: BindingView::Named(st.named@[i].key.name@),
            hints: st.named@[i].meta.dependencies@,
        }),
        forall|i: int, k: int| #![trigger st.sets@[i].metas@[k]] 0 <= i < st.sets@.len() && 0 <= k < st.sets@[i].metas@.len() && k <= usize::MAX
            ==> plans(st).contains(NodePlan {
                id: "set::"@ + st.sets@[i].metas@[0].type_label@ + "::"@ + decimal(k as nat),
                type_label: st.sets@[i].metas@[k].type_label@,
                scope: st.sets@[i].metas@[k].scope,
                binding: BindingView::SetEntry(k as usize),
                hints: st.sets@[i].metas@[k].dependencies@,
            }),
        forall|i: int| #![trigger st.dynamics@[i]] 0 <= i < st.dynamics@.len() ==> plans(st).contains(NodePlan {
            id: "dynamic::"@ + st.dynamics@[i].name@,
            type_label: st.dynamics@[i].name@,
            scope: st.dynamics@[i].scope,
            binding: BindingView::Dynamic(st.dynamics@[i].name@),
            hints: st.dynamics@[i].dependencies@,
        }),
{
    let fa = |i: usize| crate::graph_build::single_plan(st.singles@[i as int]);
    let fb = |i: usize| crate::graph_build::named_plan(st.named@[i as int].meta, st.named@[i as int].key.name@);
    let fc = |i: usize| crate::graph_build::set_group(st.sets@[i as int]);
    let fd = |i: usize| crate::graph_build::dynamic_plan(st.dynamics@[i as int].name@, st.dynamics@[i as int].scope,
        st.dynamics@[i as int].dependencies@);
    let a = stable_order(single_keys(st), st.singles@.len()).map_values(fa);
    let b = stable_order(named_keys(st), st.named@.len()).map_values(fb);
    let cs = stable_order(set_keys(st), st.sets@.len()).map_values(fc);
    let c = cs.flatten();
    let d = stable_order(dynamic_keys(st), st.dynamics@.len()).map_values(fd);
    assert(plans(st) == a + b + c + d);
    assert forall|i: int| #![trigger st.singles@[i]] 0 <= i < st.singles@.len() implies plans(st).contains(NodePlan {
        id: "single::"@ + st.singles@[i].type_label@,
        type_label: st.singles@[i].type_label@,
        scope: st.singles@[i].scope,
        binding: BindingView::Single,
        hints: st.singles@[i].dependencies@,
    }) by {
        lemma_ordered_map_contains(single_keys(st), st.singles@.len(), fa, i);
        lemma_concat_contains(a, b, fa(i as usize));
        lemma_concat_contains(a + b, c, fa(i as usize));
        lemma_concat_contains(a + b + c, d, fa(i as usize));
    }
    assert forall|i: int| #![trigger st.named@[i]] 0 <= i < st.named@.len() implies plans(st).contains(NodePlan {
        id: "named::"@ + st.named@[i].meta.type_label@ + "::"@ + st.named@[i].key.name@,
        type_label: st.named@[i].meta.type_label@,
        scope: st.named@[i].meta.scope,
        binding: BindingView::Named(st.named@[i].key.name@),
        hints: st.named@[i].meta.dependencies@,
    }) by {
        lemma_ordered_map_contains(named_keys(st), st.named@.len(), fb, i);
        lemma_concat_contains(a, b, fb(i as usize));
        lemma_concat_contains(a + b, c, fb(i as usize));
        lemma_concat_contains(a + b + c, d, fb(i as usize));
    }
    assert forall|i: int, k: int| #![trigger st.sets@[i].metas@[k]] 0 <= i < st.sets@.len() && 0 <= k < st.sets@[i].metas@.len() && k <= usize::MAX
        implies plans(st).contains(NodePlan {
            id: "set::"@ + st.sets@[i].metas@[0].type_label@ + "::"@ + decimal(k as nat),
            type_label: st.sets@[i].metas@[k].type_label@,
            scope: st.sets@[i].metas@[k].scope,
            binding: BindingView::SetEntry(k as usize),
            hints: st.sets@[i].metas@[k].dependencies@,
        }) by {
        let p = crate::graph_build::set_plan(st.sets@[i], k);
        lemma_ordered_map_contains(set_keys(st), st.sets@.len(), fc, i);
        let q = choose|q: int| 0 <= q < cs.len() && cs[q] == fc(i as usize);
        assert(fc(i as usize)[k] == p);
        assert(cs[q].contains(p));
        lemma_flatten_contains(cs, q, p);
        lemma_concat_contains(a + b, c, p);
        lemma_concat_contains(a + b + c, d, p);
    }
    assert forall|i: int| #![trigger st.dynamics@[i]] 0 <= i < st.dynamics@.len() implies plans(st).contains(NodePlan {
        id: "dynamic::"@ + st.dynamics@[i].name@,
        type_label: st.dynamics@[i].name@,
        scope: st.dynamics@[i].scope,
        binding: BindingView::Dynamic(st.dynamics@[i].name@),
        hints: st.dynamics@[i].dependencies@,
    }) by {
        lemma_ordered_map_contains(dynamic_keys(st), st.dynamics@.len(), fd, i);
        lemma_concat_contains(a + b + c, d, fd(i as usize));
    }
}

/// A graph is valid only if every dynamic dependency of its nodes names a
/// registered dynamic provider: with an empty report, each dynamic hint of a
/// node carries a name that some registered dynamic provider has.
pub proof fn lemma_valid_report_binds_dynamic_hints(st: GraphBuildState)
    requires
        plans(st).len() <= usize::MAX,
        crate::graph_build::scan_nodes(st, plans(st), plans(st).len()).edges.len() <= usize::MAX,
        crate::graph_build::report_issues(st).len() == 0,
    ensures
        forall|k: int, j: int| 0 <= k < plans(st).len() && 0 <= j < crate::graph_build::node_hints(plans(st), k).len()
            && (#[trigger] crate::graph_build::node_hints(plans(st), k)[j]).is_dynamic ==> {
                let h = crate::graph_build::node_hints(plans(st), k)[j];
                &&& h.name is Some
                &&& exists|i: int| 0 <= i < st.dynamics@.len() && st.dynamics@[i].name@ == h.name.unwrap()@
            },
{
    crate::report_laws::lemma_report_valid_exact(st);
    assert forall|k: int, j: int| 0 <= k < plans(st).len() && 0 <= j < crate::graph_build::node_hints(plans(st), k).len()
        && (#[trigger] crate::graph_build::node_hints(plans(st), k)[j]).is_dynamic implies {
            let h = crate::graph_build::node_hints(plans(st), k)[j];
            &&& h.name is Some
            &&& exists|i: int| 0 <= i < st.dynamics@.len() && st.dynamics@[i].name@ == h.name.unwrap()@
        } by {
        let h = crate::graph_build::node_hints(plans(st), k)[j];
        assert(targets(st, h).len() > 0);
        lemma_dynamic_hint_targets(st, h);
    }
}

} // verus!
