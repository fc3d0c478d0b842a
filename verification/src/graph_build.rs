//! Building an injector's dependency graph and validation report from the
//! registrations it sees.
use vstd::prelude::*;
use vstd::string::*;
use crate::graph::{DependencyCardinality, GraphBinding, GraphDependency, GraphEdge, GraphNode, GraphValidationIssueKind};
use crate::cycles::{DfsState, IssueView, cycle_pass, detect_cycles, issue_views, lookup, lemma_lookup};
use crate::graph::{DependencyGraph, GraphValidationIssue, GraphValidationReport, last_with_id};
use crate::error::{Error, ErrorKind};
use crate::deps::{DepEntry, DepsView, NodeDeps, deps_wf, keys};
use crate::meta::{DependencyHint, GraphBuildState, ProviderGraphMeta, SetBinding, opt_view};
use crate::order::{sort_indices, stable_order, lemma_stable_order_len};
use crate::text::{chars_of, decimal, decimal_string};
use crate::types::{Scope, same_type};
use crate::text::views;
use std::any::TypeId;

verus! {

/// The view of a node binding.
pub enum BindingView {
    Single,
    Named(Seq<char>),
    SetEntry(usize),
    Dynamic(Seq<char>),
}

/// The view of a node binding.
pub open spec fn binding_view(b: GraphBinding) -> BindingView {
    match b {
        GraphBinding::Single => BindingView::Single,
        GraphBinding::Named(n) => BindingView::Named(n@),
        GraphBinding::SetEntry(i) => BindingView::SetEntry(i),
        GraphBinding::Dynamic(n) => BindingView::Dynamic(n@),
    }
}

/// What a graph node is made of: id, type label, scope, binding, and the
/// dependency hints of its provider.
pub struct NodePlan {
    pub id: Seq<char>,
    pub type_label: Seq<char>,
    pub scope: Scope,
    pub binding: BindingView,
    pub hints: Seq<DependencyHint>,
}

/// A graph dependency shows a hint: its type label, name, cardinality and
/// whether it is dynamic.
pub open spec fn shows_hint(d: GraphDependency, h: DependencyHint) -> bool {
    &&& d.type_label@ == h.type_label@
    &&& opt_view(d.name) == opt_view(h.name)
    &&& d.cardinality == h.cardinality
    &&& d.is_dynamic == h.is_dynamic
}

/// A graph node is the node of a plan.
pub open spec fn realizes(n: GraphNode, p: NodePlan) -> bool {
    &&& n.id@ == p.id
    &&& n.type_label@ == p.type_label
    &&& n.scope == p.scope
    &&& binding_view(n.binding) == p.binding
    &&& n.dependencies@.len() == p.hints.len()
    &&& forall|k: int| 0 <= k < p.hints.len() ==> shows_hint(#[trigger] n.dependencies@[k], p.hints[k])
}

/// The node of a single binding: `single::<type>`.
pub open spec fn single_plan(m: ProviderGraphMeta) -> NodePlan {
    NodePlan {
        id: "single::"@ + m.type_label@,
        type_label: m.type_label@,
        scope: m.scope,
        binding: BindingView::Single,
        hints: m.dependencies@,
    }
}

/// The node of a named binding: `named::<type>::<name>`.
pub open spec fn named_plan(m: ProviderGraphMeta, name: Seq<char>) -> NodePlan {
    NodePlan {
        id: "named::"@ + m.type_label@ + "::"@ + name,
        type_label: m.type_label@,
        scope: m.scope,
        binding: BindingView::Named(name),
        hints: m.dependencies@,
    }
}

/// The type label of a set's nodes: that of its first member.
pub open spec fn set_type_label(b: SetBinding) -> Seq<char> {
    if b.metas@.len() > 0 { b.metas@[0].type_label@ } else { "unknown"@ }
}

/// The node of member `index` of a set: `set::<type>::<index>`.
pub open spec fn set_plan(b: SetBinding, index: int) -> NodePlan {
    NodePlan {
        id: "set::"@ + set_type_label(b) + "::"@ + decimal(index as nat),
        type_label: b.metas@[index].type_label@,
        scope: b.metas@[index].scope,
        binding: BindingView::SetEntry(index as usize),
        hints: b.metas@[index].dependencies@,
    }
}

/// The node of a dynamic provider: `dynamic::<name>`, labelled by its name.
pub open spec fn dynamic_plan(name: Seq<char>, scope: Scope, hints: Seq<DependencyHint>) -> NodePlan {
    NodePlan { id: "dynamic::"@ + name, type_label: name, scope, binding: BindingView::Dynamic(name), hints }
}

/// Sort keys of the single bindings: their type labels.
pub open spec fn single_keys(st: GraphBuildState) -> Seq<Seq<Seq<char>>> {
    st.singles@.map_values(|m: ProviderGraphMeta| seq![m.type_label@])
}

/// Sort keys of the named bindings: type label, then name.
pub open spec fn named_keys(st: GraphBuildState) -> Seq<Seq<Seq<char>>> {
    st.named@.map_values(|b: crate::meta::NamedBinding| seq![b.meta.type_label@, b.key.name@])
}

/// Sort keys of the sets: the type label of the first member, or empty.
pub open spec fn set_keys(st: GraphBuildState) -> Seq<Seq<Seq<char>>> {
    st.sets@.map_values(|b: SetBinding| seq![if b.metas@.len() > 0 { b.metas@[0].type_label@ } else { ""@ }])
}

/// Sort keys of the dynamic providers: their names.
pub open spec fn dynamic_keys(st: GraphBuildState) -> Seq<Seq<Seq<char>>> {
    st.dynamics@.map_values(|d: crate::meta::DynamicProviderGraphMeta| seq![d.name@])
}

/// The nodes of a set, by member position.
pub open spec fn set_group(b: SetBinding) -> Seq<NodePlan> {
    Seq::new(b.metas@.len(), |ix: int| set_plan(b, ix))
}

/// The nodes of the graph in order: single bindings by type, named bindings by
/// type and name, set members by set (ordered by first type) and position,
/// dynamic providers by name.
pub open spec fn plans(st: GraphBuildState) -> Seq<NodePlan> {
    stable_order(single_keys(st), st.singles@.len()).map_values(|i: usize| single_plan(st.singles@[i as int]))
        + stable_order(named_keys(st), st.named@.len()).map_values(
            |i: usize| named_plan(st.named@[i as int].meta, st.named@[i as int].key.name@))
        + stable_order(set_keys(st), st.sets@.len()).map_values(|i: usize| set_group(st.sets@[i as int])).flatten()
        + stable_order(dynamic_keys(st), st.dynamics@.len()).map_values(
            |i: usize| dynamic_plan(st.dynamics@[i as int].name@, st.dynamics@[i as int].scope, st.dynamics@[i as int].dependencies@))
}

/// The graph dependencies showing a provider's hints.
pub fn graph_dependencies(hints: &Vec<DependencyHint>) -> (res: Vec<GraphDependency>)
    ensures
        res@.len() == hints@.len(),
        forall|k: int| 0 <= k < hints@.len() ==> shows_hint(#[trigger] res@[k], hints@[k]),
{
    let mut res: Vec<GraphDependency> = Vec::new();
    let mut k: usize = 0;
    while k < hints.len()
        invariant
            k <= hints.len(),
            res@.len() == k,
            forall|j: int| 0 <= j < k ==> shows_hint(#[trigger] res@[j], hints@[j]),
        decreases hints.len() - k,
    {
        let h = &hints[k];
        let name = match &h.name {
            Some(n) => Some(n.clone()),
            None => None,
        };
        res.push(GraphDependency {
            type_label: String::from_str(h.type_label),
            name,
            cardinality: h.cardinality,
            is_dynamic: h.is_dynamic,
        });
        k = k + 1;
    }
    res
}


/// Where a node's dependency hints come from in the build state.
#[derive(Clone, Copy, Debug)]
pub enum HintSource {
    Single(usize),
    Named(usize),
    SetMember(usize, usize),
    Dynamic(usize),
}

/// The hints a source designates.
pub open spec fn hints_at(st: GraphBuildState, src: HintSource) -> Seq<DependencyHint> {
    match src {
        HintSource::Single(i) => st.singles@[i as int].dependencies@,
        HintSource::Named(i) => st.named@[i as int].meta.dependencies@,
        HintSource::SetMember(i, j) => st.sets@[i as int].metas@[j as int].dependencies@,
        HintSource::Dynamic(i) => st.dynamics@[i as int].dependencies@,
    }
}

/// The hints a source designates.
pub(crate) fn hints_of<'a>(st: &'a GraphBuildState, src: HintSource) -> (res: &'a Vec<DependencyHint>)
    requires
        match src {
            HintSource::Single(i) => i < st.singles@.len(),
            HintSource::Named(i) => i < st.named@.len(),
            HintSource::SetMember(i, j) => i < st.sets@.len() && j < st.sets@[i as int].metas@.len(),
            HintSource::Dynamic(i) => i < st.dynamics@.len(),
        },
    ensures
        res@ == hints_at(*st, src),
{
    match src {
        HintSource::Single(i) => &st.singles[i].dependencies,
        HintSource::Named(i) => &st.named[i].meta.dependencies,
        HintSource::SetMember(i, j) => &st.sets[i].metas[j].dependencies,
        HintSource::Dynamic(i) => &st.dynamics[i].dependencies,
    }
}

/// A source designates hints that exist in the state.
pub open spec fn source_ok(st: GraphBuildState, src: HintSource) -> bool {
    match src {
        HintSource::Single(i) => i < st.singles@.len(),
        HintSource::Named(i) => i < st.named@.len(),
        HintSource::SetMember(i, j) => i < st.sets@.len() && j < st.sets@[i as int].metas@.len(),
        HintSource::Dynamic(i) => i < st.dynamics@.len(),
    }
}

/// `nodes` and `srcs` from position `at` on realize the plans `ps`.
pub open spec fn realizes_from(
    st: GraphBuildState,
    nodes: Seq<GraphNode>,
    srcs: Seq<HintSource>,
    at: int,
    ps: Seq<NodePlan>,
) -> bool {
    &&& 0 <= at
    &&& at + ps.len() <= nodes.len()
    &&& at + ps.len() <= srcs.len()
    &&& forall|i: int| 0 <= i < ps.len() ==> realizes(#[trigger] nodes[at + i], ps[i])
    &&& forall|i: int| 0 <= i < ps.len() ==> source_ok(st, #[trigger] srcs[at + i])
    &&& forall|i: int| 0 <= i < ps.len() ==> hints_at(st, #[trigger] srcs[at + i]) == ps[i].hints
}

/// The sort keys `[label]` of one string each.
pub(crate) fn label_key(label: &str) -> (res: Vec<Vec<char>>)
    ensures
        res.deep_view() == seq![label@],
{
    let cs = chars_of(label);
    let ghost cv = cs@;
    let mut k: Vec<Vec<char>> = Vec::new();
    k.push(cs);
    assert(k.deep_view()[0] =~= cv);
    assert(k.deep_view() =~= seq![label@]);
    k
}

/// The sort keys `[first, second]`.
fn pair_key(first: &str, second: &str) -> (res: Vec<Vec<char>>)
    ensures
        res.deep_view() == seq![first@, second@],
{
    let a = chars_of(first);
    let b = chars_of(second);
    let ghost av = a@;
    let ghost bv = b@;
    let mut k: Vec<Vec<char>> = Vec::new();
    k.push(a);
    k.push(b);
    assert(k.deep_view()[0] =~= av);
    assert(k.deep_view()[1] =~= bv);
    assert(k.deep_view() =~= seq![first@, second@]);
    k
}

fn append_singles(st: &GraphBuildState, nodes: &mut Vec<GraphNode>, srcs: &mut Vec<HintSource>)
    requires
        old(nodes).len() == old(srcs).len(),
    ensures
        final(nodes)@.subrange(0, old(nodes)@.len() as int) == old(nodes)@,
        final(srcs)@.subrange(0, old(srcs)@.len() as int) == old(srcs)@,
        final(nodes).len() == final(srcs).len(),
        realizes_from(*st, final(nodes)@, final(srcs)@, old(nodes)@.len() as int,
            stable_order(single_keys(*st), st.singles@.len()).map_values(|i: usize| single_plan(st.singles@[i as int]))),
        final(nodes).len() == old(nodes).len() + st.singles@.len(),
{
    let ghost base = nodes.len() as int;
    let ghost n0 = nodes@;
    let ghost s0 = srcs@;
    let mut keys: Vec<Vec<Vec<char>>> = Vec::new();
    let mut i: usize = 0;
    while i < st.singles.len()
        invariant
            i <= st.singles.len(),
            keys.deep_view() == single_keys(*st).subrange(0, i as int),
        decreases st.singles.len() - i,
    {
        let k = label_key(st.singles[i].type_label);
        let ghost before = keys.deep_view();
        keys.push(k);
        assert(keys.deep_view() =~= before.push(seq![st.singles@[i as int].type_label@]));
        assert(single_keys(*st).subrange(0, i + 1) =~= single_keys(*st).subrange(0, i as int).push(single_keys(*st)[i as int]));
        i = i + 1;
    }
    assert(single_keys(*st).subrange(0, i as int) =~= single_keys(*st));
    let order = sort_indices(&keys);
    let ghost ps = stable_order(single_keys(*st), st.singles@.len()).map_values(|i: usize| single_plan(st.singles@[i as int]));
    proof {
        crate::order::lemma_stable_order_sorted(single_keys(*st), st.singles@.len());
    }
    let mut p: usize = 0;
    while p < order.len()
        invariant
            order@ == stable_order(single_keys(*st), st.singles@.len()),
            order.len() == st.singles@.len(),
            forall|q: int| 0 <= q < order.len() ==> (#[trigger] order@[q] as int) < st.singles@.len(),
            ps == order@.map_values(|i: usize| single_plan(st.singles@[i as int])),
            p <= order.len(),
            nodes.len() == base + p,
            srcs.len() == base + p,
            nodes@.subrange(0, base) == n0,
            srcs@.subrange(0, base) == s0,
            realizes_from(*st, nodes@, srcs@, base, ps.subrange(0, p as int)),
        decreases order.len() - p,
    {
        let m = &st.singles[order[p]];
        let mut id = String::from_str("single::");
        id.append(m.type_label);
        let deps = graph_dependencies(&m.dependencies);
        let node = GraphNode {
            id,
            type_label: String::from_str(m.type_label),
            scope: m.scope,
            binding: GraphBinding::Single,
            dependencies: deps,
        };
        let ghost nb = nodes@;
        let ghost sb = srcs@;
        nodes.push(node);
        srcs.push(HintSource::Single(order[p]));
        proof {
            assert(ps[p as int] == single_plan(st.singles@[order@[p as int] as int]));
            assert(realizes(nodes@[base + p], ps[p as int]));
            assert forall|i: int| 0 <= i < p + 1 implies realizes(#[trigger] nodes@[base + i], ps.subrange(0, p + 1)[i])
                && source_ok(*st, srcs@[base + i]) && hints_at(*st, srcs@[base + i]) == ps.subrange(0, p + 1)[i].hints by {
                if i < p {
                    assert(nodes@[base + i] == nb[base + i]);
                    assert(srcs@[base + i] == sb[base + i]);
                    assert(ps.subrange(0, p as int)[i] == ps.subrange(0, p + 1)[i]);
                }
            }
            assert(nodes@.subrange(0, base) =~= nb.subrange(0, base));
            assert(srcs@.subrange(0, base) =~= sb.subrange(0, base));
        }
        p = p + 1;
    }
    assert(ps.subrange(0, p as int) =~= ps);
}


fn append_named(st: &GraphBuildState, nodes: &mut Vec<GraphNode>, srcs: &mut Vec<HintSource>)
    requires
        old(nodes).len() == old(srcs).len(),
    ensures
        final(nodes)@.subrange(0, old(nodes)@.len() as int) == old(nodes)@,
        final(srcs)@.subrange(0, old(srcs)@.len() as int) == old(srcs)@,
        final(nodes).len() == final(srcs).len(),
        realizes_from(*st, final(nodes)@, final(srcs)@, old(nodes)@.len() as int,
            stable_order(named_keys(*st), st.named@.len()).map_values(
                |i: usize| named_plan(st.named@[i as int].meta, st.named@[i as int].key.name@))),
        final(nodes).len() == old(nodes).len() + st.named@.len(),
{
    let ghost base = nodes.len() as int;
    let ghost n0 = nodes@;
    let ghost s0 = srcs@;
    let mut keys: Vec<Vec<Vec<char>>> = Vec::new();
    let mut i: usize = 0;
    while i < st.named.len()
        invariant
            i <= st.named.len(),
            keys.deep_view() == named_keys(*st).subrange(0, i as int),
        decreases st.named.len() - i,
    {
        let k = pair_key(st.named[i].meta.type_label, st.named[i].key.name.as_str());
        let ghost before = keys.deep_view();
        keys.push(k);
        assert(keys.deep_view() =~= before.push(seq![st.named@[i as int].meta.type_label@, st.named@[i as int].key.name@]));
        assert(named_keys(*st).subrange(0, i + 1) =~= named_keys(*st).subrange(0, i as int).push(named_keys(*st)[i as int]));
        i = i + 1;
    }
    assert(named_keys(*st).subrange(0, i as int) =~= named_keys(*st));
    let order = sort_indices(&keys);
    let ghost ps = stable_order(named_keys(*st), st.named@.len()).map_values(
        |i: usize| named_plan(st.named@[i as int].meta, st.named@[i as int].key.name@));
    proof {
        crate::order::lemma_stable_order_sorted(named_keys(*st), st.named@.len());
    }
    let mut p: usize = 0;
    while p < order.len()
        invariant
            order@ == stable_order(named_keys(*st), st.named@.len()),
            order.len() == st.named@.len(),
            forall|q: int| 0 <= q < order.len() ==> (#[trigger] order@[q] as int) < st.named@.len(),
            ps == order@.map_values(|i: usize| named_plan(st.named@[i as int].meta, st.named@[i as int].key.name@)),
            p <= order.len(),
            nodes.len() == base + p,
            srcs.len() == base + p,
            nodes@.subrange(0, base) == n0,
            srcs@.subrange(0, base) == s0,
            realizes_from(*st, nodes@, srcs@, base, ps.subrange(0, p as int)),
        decreases order.len() - p,
    {
        let b = &st.named[order[p]];
        let mut id = String::from_str("named::");
        id.append(b.meta.type_label);
        id.append("::");
        id.append(b.key.name.as_str());
        let deps = graph_dependencies(&b.meta.dependencies);
        let node = GraphNode {
            id,
            type_label: String::from_str(b.meta.type_label),
            scope: b.meta.scope,
            binding: GraphBinding::Named(b.key.name.clone()),
            dependencies: deps,
        };
        let ghost nb = nodes@;
        let ghost sb = srcs@;
        nodes.push(node);
        srcs.push(HintSource::Named(order[p]));
        proof {
            assert(ps[p as int] == named_plan(st.named@[order@[p as int] as int].meta, st.named@[order@[p as int] as int].key.name@));
            assert(realizes(nodes@[base + p], ps[p as int]));
            assert forall|i: int| 0 <= i < p + 1 implies realizes(#[trigger] nodes@[base + i], ps.subrange(0, p + 1)[i])
                && source_ok(*st, srcs@[base + i]) && hints_at(*st, srcs@[base + i]) == ps.subrange(0, p + 1)[i].hints by {
                if i < p {
                    assert(nodes@[base + i] == nb[base + i]);
                    assert(srcs@[base + i] == sb[base + i]);
                    assert(ps.subrange(0, p as int)[i] == ps.subrange(0, p + 1)[i]);
                }
            }
            assert(nodes@.subrange(0, base) =~= nb.subrange(0, base));
            assert(srcs@.subrange(0, base) =~= sb.subrange(0, base));
        }
        p = p + 1;
    }
    assert(ps.subrange(0, p as int) =~= ps);
}

fn append_dynamics(st: &GraphBuildState, nodes: &mut Vec<GraphNode>, srcs: &mut Vec<HintSource>)
    requires
        old(nodes).len() == old(srcs).len(),
    ensures
        final(nodes)@.subrange(0, old(nodes)@.len() as int) == old(nodes)@,
        final(srcs)@.subrange(0, old(srcs)@.len() as int) == old(srcs)@,
        final(nodes).len() == final(srcs).len(),
        realizes_from(*st, final(nodes)@, final(srcs)@, old(nodes)@.len() as int,
            stable_order(dynamic_keys(*st), st.dynamics@.len()).map_values(
                |i: usize| dynamic_plan(st.dynamics@[i as int].name@, st.dynamics@[i as int].scope, st.dynamics@[i as int].dependencies@))),
        final(nodes).len() == old(nodes).len() + st.dynamics@.len(),
{
    let ghost base = nodes.len() as int;
    let ghost n0 = nodes@;
    let ghost s0 = srcs@;
    let mut keys: Vec<Vec<Vec<char>>> = Vec::new();
    let mut i: usize = 0;
    while i < st.dynamics.len()
        invariant
            i <= st.dynamics.len(),
            keys.deep_view() == dynamic_keys(*st).subrange(0, i as int),
        decreases st.dynamics.len() - i,
    {
        let k = label_key(st.dynamics[i].name.as_str());
        let ghost before = keys.deep_view();
        keys.push(k);
        assert(keys.deep_view() =~= before.push(seq![st.dynamics@[i as int].name@]));
        assert(dynamic_keys(*st).subrange(0, i + 1) =~= dynamic_keys(*st).subrange(0, i as int).push(dynamic_keys(*st)[i as int]));
        i = i + 1;
    }
    assert(dynamic_keys(*st).subrange(0, i as int) =~= dynamic_keys(*st));
    let order = sort_indices(&keys);
    let ghost ps = stable_order(dynamic_keys(*st), st.dynamics@.len()).map_values(
        |i: usize| dynamic_plan(st.dynamics@[i as int].name@, st.dynamics@[i as int].scope, st.dynamics@[i as int].dependencies@));
    proof {
        crate::order::lemma_stable_order_sorted(dynamic_keys(*st), st.dynamics@.len());
    }
    let mut p: usize = 0;
    while p < order.len()
        invariant
            order@ == stable_order(dynamic_keys(*st), st.dynamics@.len()),
            order.len() == st.dynamics@.len(),
            forall|q: int| 0 <= q < order.len() ==> (#[trigger] order@[q] as int) < st.dynamics@.len(),
            ps == order@.map_values(
                |i: usize| dynamic_plan(st.dynamics@[i as int].name@, st.dynamics@[i as int].scope, st.dynamics@[i as int].dependencies@)),
            p <= order.len(),
            nodes.len() == base + p,
            srcs.len() == base + p,
            nodes@.subrange(0, base) == n0,
            srcs@.subrange(0, base) == s0,
            realizes_from(*st, nodes@, srcs@, base, ps.subrange(0, p as int)),
        decreases order.len() - p,
    {
        let d = &st.dynamics[order[p]];
        let mut id = String::from_str("dynamic::");
        id.append(d.name.as_str());
        let deps = graph_dependencies(&d.dependencies);
        let node = GraphNode {
            id,
            type_label: d.name.clone(),
            scope: d.scope,
            binding: GraphBinding::Dynamic(d.name.clone()),
            dependencies: deps,
        };
        let ghost nb = nodes@;
        let ghost sb = srcs@;
        nodes.push(node);
        srcs.push(HintSource::Dynamic(order[p]));
        proof {
            assert(realizes(nodes@[base + p], ps[p as int]));
            assert forall|i: int| 0 <= i < p + 1 implies realizes(#[trigger] nodes@[base + i], ps.subrange(0, p + 1)[i])
                && source_ok(*st, srcs@[base + i]) && hints_at(*st, srcs@[base + i]) == ps.subrange(0, p + 1)[i].hints by {
                if i < p {
                    assert(nodes@[base + i] == nb[base + i]);
                    assert(srcs@[base + i] == sb[base + i]);
                    assert(ps.subrange(0, p as int)[i] == ps.subrange(0, p + 1)[i]);
                }
            }
            assert(nodes@.subrange(0, base) =~= nb.subrange(0, base));
            assert(srcs@.subrange(0, base) =~= sb.subrange(0, base));
        }
        p = p + 1;
    }
    assert(ps.subrange(0, p as int) =~= ps);
}


fn append_sets(st: &GraphBuildState, nodes: &mut Vec<GraphNode>, srcs: &mut Vec<HintSource>)
    requires
        old(nodes).len() == old(srcs).len(),
    ensures
        final(nodes)@.subrange(0, old(nodes)@.len() as int) == old(nodes)@,
        final(srcs)@.subrange(0, old(srcs)@.len() as int) == old(srcs)@,
        final(nodes).len() == final(srcs).len(),
        realizes_from(*st, final(nodes)@, final(srcs)@, old(nodes)@.len() as int,
            stable_order(set_keys(*st), st.sets@.len()).map_values(|i: usize| set_group(st.sets@[i as int])).flatten()),
        final(nodes).len() == old(nodes).len()
            + stable_order(set_keys(*st), st.sets@.len()).map_values(|i: usize| set_group(st.sets@[i as int])).flatten().len(),
{
    broadcast use Seq::lemma_flatten_push;
    let ghost base = nodes.len() as int;
    let ghost n0 = nodes@;
    let ghost s0 = srcs@;
    let mut keys: Vec<Vec<Vec<char>>> = Vec::new();
    let mut i: usize = 0;
    while i < st.sets.len()
        invariant
            i <= st.sets.len(),
            keys.deep_view() == set_keys(*st).subrange(0, i as int),
        decreases st.sets.len() - i,
    {
        let b = &st.sets[i];
        let k = if b.metas.len() > 0 { label_key(b.metas[0].type_label) } else { label_key("") };
        let ghost before = keys.deep_view();
        keys.push(k);
        assert(keys.deep_view() =~= before.push(set_keys(*st)[i as int]));
        assert(set_keys(*st).subrange(0, i + 1) =~= set_keys(*st).subrange(0, i as int).push(set_keys(*st)[i as int]));
        i = i + 1;
    }
    assert(set_keys(*st).subrange(0, i as int) =~= set_keys(*st));
    let order = sort_indices(&keys);
    let ghost groups = stable_order(set_keys(*st), st.sets@.len()).map_values(|i: usize| set_group(st.sets@[i as int]));
    proof {
        crate::order::lemma_stable_order_sorted(set_keys(*st), st.sets@.len());
        assert(groups.subrange(0, 0).flatten() =~= Seq::<NodePlan>::empty());
    }
    let mut p: usize = 0;
    while p < order.len()
        invariant
            order@ == stable_order(set_keys(*st), st.sets@.len()),
            order.len() == st.sets@.len(),
            forall|q: int| 0 <= q < order.len() ==> (#[trigger] order@[q] as int) < st.sets@.len(),
            groups == order@.map_values(|i: usize| set_group(st.sets@[i as int])),
            p <= order.len(),
            nodes.len() == base + groups.subrange(0, p as int).flatten().len(),
            srcs.len() == nodes.len(),
            nodes@.subrange(0, base) == n0,
            srcs@.subrange(0, base) == s0,
            realizes_from(*st, nodes@, srcs@, base, groups.subrange(0, p as int).flatten()),
        decreases order.len() - p,
    {
        let si = order[p];
        let b = &st.sets[si];
        let ghost done = groups.subrange(0, p as int).flatten();
        let ghost grp = set_group(st.sets@[si as int]);
        assert(groups[p as int] == grp);
        let mut ix: usize = 0;
        while ix < b.metas.len()
            invariant
                si < st.sets@.len(),
                b == st.sets@[si as int],
                grp == set_group(*b),
                ix <= b.metas.len(),
                nodes.len() == base + done.len() + ix,
                srcs.len() == nodes.len(),
                nodes@.subrange(0, base) == n0,
                srcs@.subrange(0, base) == s0,
                realizes_from(*st, nodes@, srcs@, base, done + grp.subrange(0, ix as int)),
            decreases b.metas.len() - ix,
        {
            let m = &b.metas[ix];
            let mut id = String::from_str("set::");
            if b.metas.len() > 0 {
                id.append(b.metas[0].type_label);
            } else {
                id.append("unknown");
            }
            id.append("::");
            let digits = decimal_string(ix);
            id.append(digits.as_str());
            let deps = graph_dependencies(&m.dependencies);
            let node = GraphNode {
                id,
                type_label: String::from_str(m.type_label),
                scope: m.scope,
                binding: GraphBinding::SetEntry(ix),
                dependencies: deps,
            };
            let ghost nb = nodes@;
            let ghost sb = srcs@;
            let ghost prev = done + grp.subrange(0, ix as int);
            let ghost next = done + grp.subrange(0, ix + 1);
            nodes.push(node);
            srcs.push(HintSource::SetMember(si, ix));
            proof {
                assert(grp[ix as int] == set_plan(*b, ix as int));
                assert(next =~= prev.push(grp[ix as int]));
                assert(realizes(nodes@[base + prev.len()], next[prev.len() as int]));
                assert forall|i: int| 0 <= i < next.len() implies realizes(#[trigger] nodes@[base + i], next[i])
                    && source_ok(*st, srcs@[base + i]) && hints_at(*st, srcs@[base + i]) == next[i].hints by {
                    if i < prev.len() {
                        assert(nodes@[base + i] == nb[base + i]);
                        assert(srcs@[base + i] == sb[base + i]);
                        assert(prev[i] == next[i]);
                    }
                }
                assert(nodes@.subrange(0, base) =~= nb.subrange(0, base));
                assert(srcs@.subrange(0, base) =~= sb.subrange(0, base));
            }
            ix = ix + 1;
        }
        proof {
            assert(grp.subrange(0, ix as int) =~= grp);
            assert(groups.subrange(0, p + 1) =~= groups.subrange(0, p as int).push(grp));
            groups.subrange(0, p as int).lemma_flatten_push(grp);
            assert(groups.subrange(0, p + 1).flatten() == done + grp);
        }
        p = p + 1;
    }
    assert(groups.subrange(0, p as int) =~= groups);
}

proof fn lemma_realizes_keep(
    st: GraphBuildState,
    old_nodes: Seq<GraphNode>,
    old_srcs: Seq<HintSource>,
    nodes: Seq<GraphNode>,
    srcs: Seq<HintSource>,
    at: int,
    ps: Seq<NodePlan>,
)
    requires
        realizes_from(st, old_nodes, old_srcs, at, ps),
        old_nodes.len() <= nodes.len(),
        old_srcs.len() <= srcs.len(),
        nodes.subrange(0, old_nodes.len() as int) == old_nodes,
        srcs.subrange(0, old_srcs.len() as int) == old_srcs,
    ensures
        realizes_from(st, nodes, srcs, at, ps),
{
    assert forall|i: int| 0 <= i < ps.len() implies realizes(#[trigger] nodes[at + i], ps[i]) by {
        assert(nodes.subrange(0, old_nodes.len() as int)[at + i] == nodes[at + i]);
        assert(realizes(old_nodes[at + i], ps[i]));
    }
    assert forall|i: int| 0 <= i < ps.len() implies source_ok(st, #[trigger] srcs[at + i]) by {
        assert(srcs.subrange(0, old_srcs.len() as int)[at + i] == srcs[at + i]);
        assert(source_ok(st, old_srcs[at + i]));
    }
    assert forall|i: int| 0 <= i < ps.len() implies hints_at(st, #[trigger] srcs[at + i]) == ps[i].hints by {
        assert(srcs.subrange(0, old_srcs.len() as int)[at + i] == srcs[at + i]);
        assert(hints_at(st, old_srcs[at + i]) == ps[i].hints);
    }
}

proof fn lemma_realizes_concat(
    st: GraphBuildState,
    nodes: Seq<GraphNode>,
    srcs: Seq<HintSource>,
    at: int,
    ps1: Seq<NodePlan>,
    ps2: Seq<NodePlan>,
)
    requires
        realizes_from(st, nodes, srcs, at, ps1),
        realizes_from(st, nodes, srcs, at + ps1.len(), ps2),
    ensures
        realizes_from(st, nodes, srcs, at, ps1 + ps2),
{
    let ps = ps1 + ps2;
    assert forall|i: int| 0 <= i < ps.len() implies realizes(#[trigger] nodes[at + i], ps[i]) by {
        if i >= ps1.len() {
            let k = i - ps1.len();
            assert(realizes(nodes[at + ps1.len() + k], ps2[k]));
        } else {
            assert(realizes(nodes[at + i], ps1[i]));
        }
    }
    assert forall|i: int| 0 <= i < ps.len() implies source_ok(st, #[trigger] srcs[at + i]) by {
        if i >= ps1.len() {
            let k = i - ps1.len();
            assert(source_ok(st, srcs[at + ps1.len() + k]));
        } else {
            assert(source_ok(st, srcs[at + i]));
        }
    }
    assert forall|i: int| 0 <= i < ps.len() implies hints_at(st, #[trigger] srcs[at + i]) == ps[i].hints by {
        if i >= ps1.len() {
            let k = i - ps1.len();
            assert(hints_at(st, srcs[at + ps1.len() + k]) == ps2[k].hints);
        } else {
            assert(hints_at(st, srcs[at + i]) == ps1[i].hints);
        }
    }
}

/// The nodes of the graph, each with the source of its provider's hints.
fn plan_nodes(st: &GraphBuildState) -> (res: (Vec<GraphNode>, Vec<HintSource>))
    ensures
        res.0.len() == plans(*st).len(),
        res.1.len() == plans(*st).len(),
        realizes_from(*st, res.0@, res.1@, 0, plans(*st)),
{
    let mut nodes: Vec<GraphNode> = Vec::new();
    let mut srcs: Vec<HintSource> = Vec::new();
    let ghost ps1 = stable_order(single_keys(*st), st.singles@.len()).map_values(|i: usize| single_plan(st.singles@[i as int]));
    let ghost ps2 = stable_order(named_keys(*st), st.named@.len()).map_values(
        |i: usize| named_plan(st.named@[i as int].meta, st.named@[i as int].key.name@));
    let ghost ps3 = stable_order(set_keys(*st), st.sets@.len()).map_values(|i: usize| set_group(st.sets@[i as int])).flatten();
    let ghost ps4 = stable_order(dynamic_keys(*st), st.dynamics@.len()).map_values(
        |i: usize| dynamic_plan(st.dynamics@[i as int].name@, st.dynamics@[i as int].scope, st.dynamics@[i as int].dependencies@));
    proof {
        lemma_stable_order_len(single_keys(*st), st.singles@.len());
        lemma_stable_order_len(named_keys(*st), st.named@.len());
        lemma_stable_order_len(dynamic_keys(*st), st.dynamics@.len());
    }
    append_singles(st, &mut nodes, &mut srcs);
    let ghost n1 = nodes@;
    let ghost s1 = srcs@;
    append_named(st, &mut nodes, &mut srcs);
    proof {
        lemma_realizes_keep(*st, n1, s1, nodes@, srcs@, 0, ps1);
        lemma_realizes_concat(*st, nodes@, srcs@, 0, ps1, ps2);
    }
    let ghost n2 = nodes@;
    let ghost s2 = srcs@;
    append_sets(st, &mut nodes, &mut srcs);
    proof {
        lemma_realizes_keep(*st, n2, s2, nodes@, srcs@, 0, ps1 + ps2);
        lemma_realizes_concat(*st, nodes@, srcs@, 0, ps1 + ps2, ps3);
    }
    let ghost n3 = nodes@;
    let ghost s3 = srcs@;
    append_dynamics(st, &mut nodes, &mut srcs);
    proof {
        lemma_realizes_keep(*st, n3, s3, nodes@, srcs@, 0, ps1 + ps2 + ps3);
        lemma_realizes_concat(*st, nodes@, srcs@, 0, ps1 + ps2 + ps3, ps4);
        assert(plans(*st) == ps1 + ps2 + ps3 + ps4);
    }
    (nodes, srcs)
}


/// The position of the single binding of type `tid`, if any.
pub open spec fn single_index(st: GraphBuildState, tid: TypeId) -> Option<int> {
    if exists|i: int| 0 <= i < st.singles@.len() && st.singles@[i].type_id == tid {
        Some(choose|i: int| 0 <= i < st.singles@.len() && st.singles@[i].type_id == tid)
    } else {
        None
    }
}

/// The position of the named binding of type `tid` under `name`, if any.
pub open spec fn named_index(st: GraphBuildState, tid: TypeId, name: Seq<char>) -> Option<int> {
    if exists|i: int| 0 <= i < st.named@.len() && st.named@[i].key.type_id == tid && st.named@[i].key.name@ == name {
        Some(choose|i: int| 0 <= i < st.named@.len() && st.named@[i].key.type_id == tid && st.named@[i].key.name@ == name)
    } else {
        None
    }
}

/// The position of the set bindings of type `tid`, if any.
pub open spec fn set_index(st: GraphBuildState, tid: TypeId) -> Option<int> {
    if exists|i: int| 0 <= i < st.sets@.len() && st.sets@[i].type_id == tid {
        Some(choose|i: int| 0 <= i < st.sets@.len() && st.sets@[i].type_id == tid)
    } else {
        None
    }
}

/// The position of the dynamic provider named `name`, if any.
pub open spec fn dynamic_index(st: GraphBuildState, name: Seq<char>) -> Option<int> {
    if exists|i: int| 0 <= i < st.dynamics@.len() && st.dynamics@[i].name@ == name {
        Some(choose|i: int| 0 <= i < st.dynamics@.len() && st.dynamics@[i].name@ == name)
    } else {
        None
    }
}

/// The node ids a hint points to: the dynamic provider of its name, the named
/// or single binding of its type, or every member of its type's set.
pub open spec fn targets(st: GraphBuildState, h: DependencyHint) -> Seq<Seq<char>> {
    if h.is_dynamic {
        match h.name {
            Some(n) => match dynamic_index(st, n@) {
                Some(_) => seq!["dynamic::"@ + n@],
                None => seq![],
            },
            None => seq![],
        }
    } else {
        match h.cardinality {
            DependencyCardinality::One => match h.name {
                Some(n) => match named_index(st, h.type_id, n@) {
                    Some(i) => seq!["named::"@ + st.named@[i].meta.type_label@ + "::"@ + n@],
                    None => seq![],
                },
                None => match single_index(st, h.type_id) {
                    Some(i) => seq!["single::"@ + st.singles@[i].type_label@],
                    None => seq![],
                },
            },
            DependencyCardinality::All => match set_index(st, h.type_id) {
                Some(i) => set_group(st.sets@[i]).map_values(|p: NodePlan| p.id),
                None => seq![],
            },
        }
    }
}

pub(crate) fn find_single(st: &GraphBuildState, tid: &TypeId) -> (res: Option<usize>)
    requires
        st.wf(),
    ensures
        match res {
            Some(r) => single_index(*st, *tid) == Some(r as int) && (r as int) < st.singles@.len(),
            None => single_index(*st, *tid) is None,
        },
{
    let mut i: usize = 0;
    while i < st.singles.len()
        invariant
            st.wf(),
            i <= st.singles.len(),
            forall|j: int| 0 <= j < i ==> st.singles@[j].type_id != *tid,
        decreases st.singles.len() - i,
    {
        if same_type(&st.singles[i].type_id, tid) {
            proof {
                let c = choose|c: int| 0 <= c < st.singles@.len() && st.singles@[c].type_id == *tid;
                if c != i {
                    if c < i {
                        assert(st.singles@[c].type_id != st.singles@[i as int].type_id);
                    } else {
                        assert(st.singles@[i as int].type_id != st.singles@[c].type_id);
                    }
                }
            }
            return Some(i);
        }
        i = i + 1;
    }
    None
}

pub(crate) fn find_named(st: &GraphBuildState, tid: &TypeId, name: &String) -> (res: Option<usize>)
    requires
        st.wf(),
    ensures
        match res {
            Some(r) => named_index(*st, *tid, name@) == Some(r as int) && (r as int) < st.named@.len(),
            None => named_index(*st, *tid, name@) is None,
        },
{
    let mut i: usize = 0;
    while i < st.named.len()
        invariant
            st.wf(),
            i <= st.named.len(),
            forall|j: int| 0 <= j < i ==> !(st.named@[j].key.type_id == *tid && st.named@[j].key.name@ == name@),
        decreases st.named.len() - i,
    {
        if same_type(&st.named[i].key.type_id, tid) && st.named[i].key.name == *name {
            proof {
                let c = choose|c: int| 0 <= c < st.named@.len() && st.named@[c].key.type_id == *tid && st.named@[c].key.name@ == name@;
                if c != i {
                    if c < i {
                        assert(!(st.named@[c].key.type_id == st.named@[i as int].key.type_id
                            && st.named@[c].key.name@ == st.named@[i as int].key.name@));
                    } else {
                        assert(!(st.named@[i as int].key.type_id == st.named@[c].key.type_id
                            && st.named@[i as int].key.name@ == st.named@[c].key.name@));
                    }
                }
            }
            return Some(i);
        }
        i = i + 1;
    }
    None
}

pub(crate) fn find_set(st: &GraphBuildState, tid: &TypeId) -> (res: Option<usize>)
    requires
        st.wf(),
    ensures
        match res {
            Some(r) => set_index(*st, *tid) == Some(r as int) && (r as int) < st.sets@.len(),
            None => set_index(*st, *tid) is None,
        },
{
    let mut i: usize = 0;
    while i < st.sets.len()
        invariant
            st.wf(),
            i <= st.sets.len(),
            forall|j: int| 0 <= j < i ==> st.sets@[j].type_id != *tid,
        decreases st.sets.len() - i,
    {
        if same_type(&st.sets[i].type_id, tid) {
            proof {
                let c = choose|c: int| 0 <= c < st.sets@.len() && st.sets@[c].type_id == *tid;
                if c != i {
                    if c < i {
                        assert(st.sets@[c].type_id != st.sets@[i as int].type_id);
                    } else {
                        assert(st.sets@[i as int].type_id != st.sets@[c].type_id);
                    }
                }
            }
            return Some(i);
        }
        i = i + 1;
    }
    None
}

pub(crate) fn find_dynamic(st: &GraphBuildState, name: &String) -> (res: Option<usize>)
    requires
        st.wf(),
    ensures
        match res {
            Some(r) => dynamic_index(*st, name@) == Some(r as int) && (r as int) < st.dynamics@.len(),
            None => dynamic_index(*st, name@) is None,
        },
{
    let mut i: usize = 0;
    while i < st.dynamics.len()
        invariant
            st.wf(),
            i <= st.dynamics.len(),
            forall|j: int| 0 <= j < i ==> st.dynamics@[j].name@ != name@,
        decreases st.dynamics.len() - i,
    {
        if st.dynamics[i].name == *name {
            proof {
                let c = choose|c: int| 0 <= c < st.dynamics@.len() && st.dynamics@[c].name@ == name@;
                if c != i {
                    if c < i {
                        assert(st.dynamics@[c].name@ != st.dynamics@[i as int].name@);
                    } else {
                        assert(st.dynamics@[i as int].name@ != st.dynamics@[c].name@);
                    }
                }
            }
            return Some(i);
        }
        i = i + 1;
    }
    None
}

/// The node ids of the members of a set, by position.
fn set_member_ids(b: &SetBinding) -> (res: Vec<String>)
    ensures
        views(res@) == set_group(*b).map_values(|p: NodePlan| p.id),
{
    let mut res: Vec<String> = Vec::new();
    let mut ix: usize = 0;
    while ix < b.metas.len()
        invariant
            ix <= b.metas.len(),
            views(res@) == set_group(*b).map_values(|p: NodePlan| p.id).subrange(0, ix as int),
        decreases b.metas.len() - ix,
    {
        let mut id = String::from_str("set::");
        if b.metas.len() > 0 {
            id.append(b.metas[0].type_label);
        } else {
            id.append("unknown");
        }
        id.append("::");
        let digits = decimal_string(ix);
        id.append(digits.as_str());
        let ghost before = views(res@);
        res.push(id);
        proof {
            assert(views(res@) =~= before.push(set_plan(*b, ix as int).id));
            assert(set_group(*b).map_values(|p: NodePlan| p.id).subrange(0, ix + 1)
                =~= set_group(*b).map_values(|p: NodePlan| p.id).subrange(0, ix as int).push(set_plan(*b, ix as int).id));
        }
        ix = ix + 1;
    }
    assert(set_group(*b).map_values(|p: NodePlan| p.id).subrange(0, ix as int) =~= set_group(*b).map_values(|p: NodePlan| p.id));
    res
}

/// The node ids a hint points to.
pub(crate) fn dep_targets(st: &GraphBuildState, h: &DependencyHint) -> (res: Vec<String>)
    requires
        st.wf(),
    ensures
        views(res@) == targets(*st, *h),
{
    let mut res: Vec<String> = Vec::new();
    if h.is_dynamic {
        if let Some(n) = &h.name {
            if find_dynamic(st, n).is_some() {
                let mut id = String::from_str("dynamic::");
                id.append(n.as_str());
                res.push(id);
                assert(views(res@) =~= seq!["dynamic::"@ + n@]);
            } else {
                assert(views(res@) =~= Seq::<Seq<char>>::empty());
            }
        } else {
            assert(views(res@) =~= Seq::<Seq<char>>::empty());
        }
        return res;
    }
    match h.cardinality {
        DependencyCardinality::One => {
            match &h.name {
                Some(n) => {
                    match find_named(st, &h.type_id, n) {
                        Some(i) => {
                            let mut id = String::from_str("named::");
                            id.append(st.named[i].meta.type_label);
                            id.append("::");
                            id.append(n.as_str());
                            res.push(id);
                            assert(views(res@) =~= seq!["named::"@ + st.named@[i as int].meta.type_label@ + "::"@ + n@]);
                            assert(views(res@) == targets(*st, *h));
                        },
                        None => {
                            assert(views(res@) =~= Seq::<Seq<char>>::empty());
                        },
                    }
                },
                None => {
                    match find_single(st, &h.type_id) {
                        Some(i) => {
                            let mut id = String::from_str("single::");
                            id.append(st.singles[i].type_label);
                            res.push(id);
                            assert(views(res@) =~= seq!["single::"@ + st.singles@[i as int].type_label@]);
                            assert(views(res@) == targets(*st, *h));
                        },
                        None => {
                            assert(views(res@) =~= Seq::<Seq<char>>::empty());
                        },
                    }
                },
            }
            res
        },
        DependencyCardinality::All => {
            match find_set(st, &h.type_id) {
                Some(i) => set_member_ids(&st.sets[i]),
                None => {
                    assert(views(res@) =~= Seq::<Seq<char>>::empty());
                    res
                },
            }
        },
    }
}


/// The view of an edge: from, to, label.
pub type EdgeView = (Seq<char>, Seq<char>, Option<Seq<char>>);

/// The view of an edge.
pub open spec fn edge_view(e: GraphEdge) -> EdgeView {
    (e.from@, e.to@, opt_view(e.label))
}

/// The views of a sequence of edges.
pub open spec fn edge_views(s: Seq<GraphEdge>) -> Seq<EdgeView> {
    s.map_values(|e: GraphEdge| edge_view(e))
}

/// The label of a dependency edge: `one:<name>`, `one` or `all`.
pub open spec fn label_text(cardinality: DependencyCardinality, name: Option<Seq<char>>) -> Seq<char> {
    match cardinality {
        DependencyCardinality::One => match name {
            Some(n) => "one:"@ + n,
            None => "one"@,
        },
        DependencyCardinality::All => "all"@,
    }
}

/// The message of a dependency that points to no node.
pub open spec fn missing_message(node_id: Seq<char>, h: DependencyHint) -> Seq<char> {
    match h.cardinality {
        DependencyCardinality::One => match h.name {
            Some(n) => "Graph validation failed: node "@ + node_id + " depends on missing named dependency "@
                + h.type_label@ + " ("@ + n@ + ")"@,
            None => "Graph validation failed: node "@ + node_id + " depends on missing dependency "@ + h.type_label@,
        },
        DependencyCardinality::All => "Graph validation failed: node "@ + node_id + " depends on missing set dependency "@
            + h.type_label@,
    }
}

/// `adj` with `to` appended to the dependencies of `from` (a new entry if needed).
pub open spec fn adj_push(adj: DepsView, from: Seq<char>, to: Seq<char>) -> DepsView {
    match lookup(adj, from) {
        Some(i) => adj.update(i, (adj[i].0, adj[i].1.push(to))),
        None => adj.push((from, seq![to])),
    }
}

/// What the edge pass has built so far: edges, issues, adjacency.
pub struct ScanState {
    pub edges: Seq<EdgeView>,
    pub issues: Seq<IssueView>,
    pub adj: DepsView,
}

/// Adds an edge from `from` to each of `ts`, with `label`.
pub open spec fn add_targets(acc: ScanState, from: Seq<char>, ts: Seq<Seq<char>>, label: Seq<char>) -> ScanState
    decreases ts.len(),
{
    if ts.len() == 0 {
        acc
    } else {
        let a = add_targets(acc, from, ts.drop_last(), label);
        ScanState {
            edges: a.edges.push((from, ts.last(), Some(label))),
            issues: a.issues,
            adj: adj_push(a.adj, from, ts.last()),
        }
    }
}

/// Handles one hint of node `from`: its edges, or a missing-dependency issue.
pub open spec fn scan_hint(st: GraphBuildState, acc: ScanState, from: Seq<char>, h: DependencyHint) -> ScanState {
    let ts = targets(st, h);
    if ts.len() == 0 {
        ScanState {
            edges: acc.edges,
            issues: acc.issues.push((GraphValidationIssueKind::MissingDependency, Some(from), missing_message(from, h))),
            adj: acc.adj,
        }
    } else {
        add_targets(acc, from, ts, label_text(h.cardinality, opt_view(h.name)))
    }
}

/// Handles the hints `hs` of node `from`, in order.
pub open spec fn scan_hints(st: GraphBuildState, acc: ScanState, from: Seq<char>, hs: Seq<DependencyHint>) -> ScanState
    decreases hs.len(),
{
    if hs.len() == 0 {
        acc
    } else {
        scan_hint(st, scan_hints(st, acc, from, hs.drop_last()), from, hs.last())
    }
}

/// The last position of a plan with id `id`.
pub open spec fn last_plan_with_id(ps: Seq<NodePlan>, id: Seq<char>) -> Option<int>
    decreases ps.len(),
{
    if ps.len() == 0 {
        None
    } else if ps.last().id == id {
        Some(ps.len() - 1)
    } else {
        last_plan_with_id(ps.drop_last(), id)
    }
}

/// The hints used for node `i`: those of the last node with its id.
pub open spec fn node_hints(ps: Seq<NodePlan>, i: int) -> Seq<DependencyHint> {
    ps[last_plan_with_id(ps, ps[i].id).unwrap()].hints
}

/// The edge pass over the first `k` nodes.
pub open spec fn scan_nodes(st: GraphBuildState, ps: Seq<NodePlan>, k: nat) -> ScanState
    decreases k,
{
    if k == 0 {
        ScanState { edges: seq![], issues: seq![], adj: seq![] }
    } else {
        scan_hints(st, scan_nodes(st, ps, (k - 1) as nat), ps[k - 1].id, node_hints(ps, k - 1))
    }
}

/// The label of a dependency edge: `one:<name>`, `one` or `all`.
pub fn dependency_label(cardinality: DependencyCardinality, name: Option<&str>) -> (res: Option<String>)
    ensures
        res is Some,
        res.unwrap()@ == label_text(cardinality, match name { Some(n) => Some(n@), None => None }),
{
    match cardinality {
        DependencyCardinality::One => match name {
            Some(n) => {
                let mut s = String::from_str("one:");
                s.append(n);
                Some(s)
            },
            None => Some(String::from_str("one")),
        },
        DependencyCardinality::All => Some(String::from_str("all")),
    }
}

/// The message of a dependency that points to no node.
fn missing_dependency_message(node_id: &String, h: &DependencyHint) -> (res: String)
    ensures
        res@ == missing_message(node_id@, *h),
{
    let mut m = String::from_str("Graph validation failed: node ");
    m.append(node_id.as_str());
    match h.cardinality {
        DependencyCardinality::One => match &h.name {
            Some(n) => {
                m.append(" depends on missing named dependency ");
                m.append(h.type_label);
                m.append(" (");
                m.append(n.as_str());
                m.append(")");
            },
            None => {
                m.append(" depends on missing dependency ");
                m.append(h.type_label);
            },
        },
        DependencyCardinality::All => {
            m.append(" depends on missing set dependency ");
            m.append(h.type_label);
        },
    }
    m
}

pub(crate) proof fn lemma_adj_push_wf(adj: DepsView, from: Seq<char>, to: Seq<char>)
    requires
        deps_wf(adj),
    ensures
        deps_wf(adj_push(adj, from, to)),
{
    lemma_lookup(adj, from);
    let r = adj_push(adj, from, to);
    match lookup(adj, from) {
        Some(i) => {
            assert(keys(r) =~= keys(adj));
        },
        None => {
            assert(keys(r) =~= keys(adj).push(from));
            assert forall|a: int, b: int| 0 <= a < b < keys(r).len() implies keys(r)[a] != keys(r)[b] by {
                if b == keys(adj).len() {
                    assert(keys(adj).contains(keys(r)[a])) by {
                        assert(keys(adj)[a] == keys(r)[a]);
                    }
                }
            }
        },
    }
}

/// Appends `to` to the dependencies of `from`.
fn push_dep(adjacency: &mut NodeDeps, from: &String, to: String)
    requires
        deps_wf(old(adjacency)@),
    ensures
        final(adjacency)@ == adj_push(old(adjacency)@, from@, to@),
        deps_wf(final(adjacency)@),
{
    let ghost g = adjacency@;
    proof {
        lemma_lookup(g, from@);
        lemma_adj_push_wf(g, from@, to@);
    }
    match adjacency.find(from) {
        Some(i) => {
            proof {
                let li = lookup(g, from@).unwrap();
                assert(keys(g)[li] == keys(g)[i as int]);
            }
            let ghost old_deps = adjacency.entries@[i as int].deps@;
            adjacency.entries[i].deps.push(to);
            proof {
                assert(adjacency.entries@[i as int].deps@ == old_deps.push(to));
                assert(views(old_deps.push(to)) =~= views(old_deps).push(to@));
                assert(adjacency@ =~= adj_push(g, from@, to@));
            }
        },
        None => {
            let mut deps: Vec<String> = Vec::new();
            deps.push(to);
            let entry = DepEntry { node: from.clone(), deps };
            adjacency.entries.push(entry);
            proof {
                assert(views(entry.deps@) =~= seq![to@]);
                assert(adjacency@ =~= adj_push(g, from@, to@));
            }
        },
    }
}


proof fn lemma_last_ids(nodes: Seq<GraphNode>, ps: Seq<NodePlan>, id: Seq<char>)
    requires
        nodes.len() == ps.len(),
        forall|i: int| 0 <= i < ps.len() ==> #[trigger] nodes[i].id@ == ps[i].id,
    ensures
        last_with_id(nodes, id) == last_plan_with_id(ps, id),
        last_plan_with_id(ps, id) matches Some(j) ==> 0 <= j < ps.len() && ps[j].id == id,
    decreases nodes.len(),
{
    if nodes.len() > 0 {
        assert(nodes.last().id@ == ps.last().id);
        lemma_last_ids(nodes.drop_last(), ps.drop_last(), id);
    }
}

proof fn lemma_last_plan_some(ps: Seq<NodePlan>, i: int)
    requires
        0 <= i < ps.len(),
    ensures
        last_plan_with_id(ps, ps[i].id) is Some,
    decreases ps.len(),
{
    if ps.last().id != ps[i].id {
        assert(i < ps.len() - 1);
        assert(ps.drop_last()[i] == ps[i]);
        lemma_last_plan_some(ps.drop_last(), i);
    }
}

proof fn lemma_edge_views_push(s: Seq<GraphEdge>, e: GraphEdge)
    ensures
        edge_views(s.push(e)) == edge_views(s).push(edge_view(e)),
{
    assert(edge_views(s.push(e)) =~= edge_views(s).push(edge_view(e)));
}

/// The edge pass: edges, missing-dependency issues, and the adjacency used
/// for cycle detection.
fn scan_edges(
    st: &GraphBuildState,
    nodes: &Vec<GraphNode>,
    srcs: &Vec<HintSource>,
    Ghost(ps): Ghost<Seq<NodePlan>>,
) -> (res: (Vec<GraphEdge>, Vec<GraphValidationIssue>, NodeDeps))
    requires
        st.wf(),
        nodes.len() == ps.len(),
        srcs.len() == ps.len(),
        realizes_from(*st, nodes@, srcs@, 0, ps),
    ensures
        edge_views(res.0@) == scan_nodes(*st, ps, ps.len()).edges,
        issue_views(res.1@) == scan_nodes(*st, ps, ps.len()).issues,
        res.2@ == scan_nodes(*st, ps, ps.len()).adj,
        deps_wf(res.2@),
{
    let mut edges: Vec<GraphEdge> = Vec::new();
    let mut issues: Vec<GraphValidationIssue> = Vec::new();
    let mut adjacency = NodeDeps { entries: Vec::new() };
    proof {
        assert(edge_views(edges@) =~= Seq::<EdgeView>::empty());
        assert(issue_views(issues@) =~= Seq::<IssueView>::empty());
        assert(adjacency@ =~= Seq::<(Seq<char>, Seq<Seq<char>>)>::empty());
        assert forall|i: int| 0 <= i < ps.len() implies #[trigger] nodes@[i].id@ == ps[i].id by {
            assert(realizes(nodes@[0 + i], ps[i]));
        }
    }
    let mut i: usize = 0;
    while i < nodes.len()
        invariant
            st.wf(),
            nodes.len() == ps.len(),
            srcs.len() == ps.len(),
            realizes_from(*st, nodes@, srcs@, 0, ps),
            forall|j: int| 0 <= j < ps.len() ==> #[trigger] nodes@[j].id@ == ps[j].id,
            i <= nodes.len(),
            edge_views(edges@) == scan_nodes(*st, ps, i as nat).edges,
            issue_views(issues@) == scan_nodes(*st, ps, i as nat).issues,
            adjacency@ == scan_nodes(*st, ps, i as nat).adj,
            deps_wf(adjacency@),
        decreases nodes.len() - i,
    {
        let node_id = &nodes[i].id;
        let found = crate::graph::find_last_with_id(nodes, node_id);
        proof {
            lemma_last_ids(nodes@, ps, node_id@);
            lemma_last_plan_some(ps, i as int);
        }
        let owner = found.unwrap();
        proof {
            assert(source_ok(*st, srcs@[0 + owner as int]));
            assert(hints_at(*st, srcs@[0 + owner as int]) == ps[owner as int].hints);
        }
        let hints = hints_of(st, srcs[owner]);
        let ghost hs = hints@;
        assert(hs == node_hints(ps, i as int));
        let ghost base = scan_nodes(*st, ps, i as nat);
        let mut m: usize = 0;
        while m < hints.len()
            invariant
                st.wf(),
                hs == hints@,
                node_id@ == ps[i as int].id,
                m <= hints.len(),
                edge_views(edges@) == scan_hints(*st, base, node_id@, hs.subrange(0, m as int)).edges,
                issue_views(issues@) == scan_hints(*st, base, node_id@, hs.subrange(0, m as int)).issues,
                adjacency@ == scan_hints(*st, base, node_id@, hs.subrange(0, m as int)).adj,
                deps_wf(adjacency@),
            decreases hints.len() - m,
        {
            let h = &hints[m];
            assert(hs.subrange(0, m + 1).drop_last() =~= hs.subrange(0, m as int));
            let ghost acc = scan_hints(*st, base, node_id@, hs.subrange(0, m as int));
            let ts = dep_targets(st, h);
            if ts.len() == 0 {
                let message = missing_dependency_message(node_id, h);
                let issue = GraphValidationIssue {
                    kind: GraphValidationIssueKind::MissingDependency,
                    node_id: Some(node_id.clone()),
                    message,
                };
                let ghost before = issues@;
                issues.push(issue);
                proof {
                    crate::cycles::lemma_issue_views_push(before, issue);
                }
            } else {
                let ghost label = label_text(h.cardinality, opt_view(h.name));
                let ghost tv = views(ts@);
                let mut t: usize = 0;
                while t < ts.len()
                    invariant
                        tv == views(ts@),
                        node_id@ == ps[i as int].id,
                        label == label_text(h.cardinality, opt_view(h.name)),
                        t <= ts.len(),
                        edge_views(edges@) == add_targets(acc, node_id@, tv.subrange(0, t as int), label).edges,
                        issue_views(issues@) == add_targets(acc, node_id@, tv.subrange(0, t as int), label).issues,
                        adjacency@ == add_targets(acc, node_id@, tv.subrange(0, t as int), label).adj,
                        deps_wf(adjacency@),
                    decreases ts.len() - t,
                {
                    assert(tv.subrange(0, t + 1).drop_last() =~= tv.subrange(0, t as int));
                    push_dep(&mut adjacency, node_id, ts[t].clone());
                    let label_string = dependency_label(h.cardinality, match &h.name { Some(n) => Some(n.as_str()), None => None });
                    let edge = GraphEdge { from: node_id.clone(), to: ts[t].clone(), label: label_string };
                    let ghost before = edges@;
                    edges.push(edge);
                    proof {
                        lemma_edge_views_push(before, edge);
                        assert(tv[t as int] == ts@[t as int]@);
                    }
                    t = t + 1;
                }
                assert(tv.subrange(0, t as int) =~= tv);
            }
            m = m + 1;
        }
        assert(hs.subrange(0, m as int) =~= hs);
        i = i + 1;
    }
    (edges, issues, adjacency)
}


/// Sort keys of node ids.
pub open spec fn id_keys(ps: Seq<NodePlan>) -> Seq<Seq<Seq<char>>> {
    ps.map_values(|p: NodePlan| seq![p.id])
}

/// The node ids in sorted order (duplicates kept).
pub open spec fn sorted_ids(ps: Seq<NodePlan>) -> Seq<Seq<char>> {
    stable_order(id_keys(ps), ps.len()).map_values(|i: usize| ps[i as int].id)
}

/// Sort keys of edges: from, to, label (empty when absent).
pub open spec fn edge_keys(es: Seq<EdgeView>) -> Seq<Seq<Seq<char>>> {
    es.map_values(|e: EdgeView| seq![e.0, e.1, match e.2 { Some(l) => l, None => ""@ }])
}

/// The edges sorted by from, to and label, stably.
pub open spec fn sorted_edges(es: Seq<EdgeView>) -> Seq<EdgeView> {
    stable_order(edge_keys(es), es.len()).map_values(|i: usize| es[i as int])
}

/// The issues of the validation report: missing dependencies in node order,
/// then the cycles found by searching from each node id in sorted order.
pub open spec fn report_issues(st: GraphBuildState) -> Seq<IssueView> {
    let ps = plans(st);
    let sc = scan_nodes(st, ps, ps.len());
    cycle_pass(sc.adj, sorted_ids(ps), ps.len(), DfsState { visited: Set::empty(), seen: Set::empty(), issues: sc.issues }).issues
}

fn copy_edge(e: &GraphEdge) -> (res: GraphEdge)
    ensures
        edge_view(res) == edge_view(*e),
{
    let label = match &e.label {
        Some(l) => Some(l.clone()),
        None => None,
    };
    GraphEdge { from: e.from.clone(), to: e.to.clone(), label }
}

/// Builds the dependency graph of a build state and validates it.
///
/// Nodes come in the order of `plans`. Each hint of a node yields edges to
/// the nodes it points to, or a missing-dependency issue. Cycles are then
/// searched from every node id in sorted order. Edges are returned sorted by
/// from, to and label.
pub fn build_dependency_graph_and_report(st: &GraphBuildState) -> (res: (DependencyGraph, GraphValidationReport))
    requires
        st.wf(),
    ensures
        res.0.nodes@.len() == plans(*st).len(),
        forall|i: int| 0 <= i < plans(*st).len() ==> realizes(#[trigger] res.0.nodes@[i], plans(*st)[i]),
        edge_views(res.0.edges@) == sorted_edges(scan_nodes(*st, plans(*st), plans(*st).len()).edges),
        issue_views(res.1.issues@) == report_issues(*st),
        (exists|t: int| 0 <= t < res.1.issues@.len()
            && (#[trigger] res.1.issues@[t]).kind == GraphValidationIssueKind::CircularDependency)
            <==> crate::report_laws::edges_cycle(edge_views(res.0.edges@)),
        res.1.issues@.len() == 0
            <==> crate::report_laws::all_hints_bound(*st) && !crate::report_laws::edges_cycle(edge_views(res.0.edges@)),
{
    let ghost ps = plans(*st);
    let (nodes, srcs) = plan_nodes(st);
    let (edges, issues, adjacency) = scan_edges(st, &nodes, &srcs, Ghost(ps));
    let ghost sc = scan_nodes(*st, ps, ps.len());
    proof {
        assert forall|i: int| 0 <= i < ps.len() implies #[trigger] nodes@[i].id@ == ps[i].id by {
            assert(realizes(nodes@[0 + i], ps[i]));
        }
    }
    // Node ids in sorted order.
    let mut keys: Vec<Vec<Vec<char>>> = Vec::new();
    let mut i: usize = 0;
    while i < nodes.len()
        invariant
            nodes.len() == ps.len(),
            forall|j: int| 0 <= j < ps.len() ==> #[trigger] nodes@[j].id@ == ps[j].id,
            i <= nodes.len(),
            keys.deep_view() == id_keys(ps).subrange(0, i as int),
        decreases nodes.len() - i,
    {
        let k = label_key(nodes[i].id.as_str());
        let ghost before = keys.deep_view();
        keys.push(k);
        assert(keys.deep_view() =~= before.push(seq![ps[i as int].id]));
        assert(id_keys(ps).subrange(0, i + 1) =~= id_keys(ps).subrange(0, i as int).push(id_keys(ps)[i as int]));
        i = i + 1;
    }
    assert(id_keys(ps).subrange(0, i as int) =~= id_keys(ps));
    let order = sort_indices(&keys);
    proof {
        crate::order::lemma_stable_order_sorted(id_keys(ps), ps.len());
    }
    let ghost ids = sorted_ids(ps);
    let mut report = GraphValidationReport { issues };
    let mut visiting: Vec<String> = Vec::new();
    let mut visited: Vec<String> = Vec::new();
    let mut stack: Vec<String> = Vec::new();
    let mut seen: Vec<String> = Vec::new();
    let ghost init = DfsState { visited: Set::empty(), seen: Set::empty(), issues: sc.issues };
    proof {
        assert(views(visited@).to_set() =~= Set::<Seq<char>>::empty());
        assert(views(seen@).to_set() =~= Set::<Seq<char>>::empty());
        assert(views(stack@) =~= Seq::<Seq<char>>::empty());
        assert(views(visiting@) =~= Seq::<Seq<char>>::empty());
    }
    let mut k: usize = 0;
    while k < order.len()
        invariant
            order@ == stable_order(id_keys(ps), ps.len()),
            order.len() == ps.len(),
            nodes.len() == ps.len(),
            forall|q: int| 0 <= q < order.len() ==> (#[trigger] order@[q] as int) < ps.len(),
            forall|j: int| 0 <= j < ps.len() ==> #[trigger] nodes@[j].id@ == ps[j].id,
            ids == order@.map_values(|i: usize| ps[i as int].id),
            adjacency@ == sc.adj,
            deps_wf(adjacency@),
            k <= order.len(),
            views(stack@) == Seq::<Seq<char>>::empty(),
            views(visiting@) == Seq::<Seq<char>>::empty(),
            crate::cycles::state_of(visited@, seen@, report) == cycle_pass(sc.adj, ids, k as nat, init),
        decreases order.len() - k,
    {
        let id = &nodes[order[k]].id;
        assert(ids[k as int] == id@);
        detect_cycles(id.as_str(), &adjacency, &mut visiting, &mut visited, &mut stack, &mut seen, &mut report);
        k = k + 1;
    }
    // Edges sorted by from, to and label.
    let mut ekeys: Vec<Vec<Vec<char>>> = Vec::new();
    let ghost ev = edge_views(edges@);
    let mut e: usize = 0;
    while e < edges.len()
        invariant
            ev == edge_views(edges@),
            e <= edges.len(),
            ekeys.deep_view() == edge_keys(ev).subrange(0, e as int),
        decreases edges.len() - e,
    {
        let edge = &edges[e];
        let a = chars_of(edge.from.as_str());
        let b = chars_of(edge.to.as_str());
        let c = match &edge.label {
            Some(l) => chars_of(l.as_str()),
            None => chars_of(""),
        };
        let ghost av = a@;
        let ghost bv = b@;
        let ghost cv = c@;
        let mut key: Vec<Vec<char>> = Vec::new();
        key.push(a);
        key.push(b);
        key.push(c);
        assert(key.deep_view()[0] =~= av);
        assert(key.deep_view()[1] =~= bv);
        assert(key.deep_view()[2] =~= cv);
        assert(key.deep_view() =~= edge_keys(ev)[e as int]);
        let ghost before = ekeys.deep_view();
        ekeys.push(key);
        assert(ekeys.deep_view() =~= before.push(edge_keys(ev)[e as int]));
        assert(edge_keys(ev).subrange(0, e + 1) =~= edge_keys(ev).subrange(0, e as int).push(edge_keys(ev)[e as int]));
        e = e + 1;
    }
    assert(edge_keys(ev).subrange(0, e as int) =~= edge_keys(ev));
    let eorder = sort_indices(&ekeys);
    proof {
        crate::order::lemma_stable_order_sorted(edge_keys(ev), ev.len());
    }
    let mut sorted: Vec<GraphEdge> = Vec::new();
    let mut q: usize = 0;
    while q < eorder.len()
        invariant
            ev == edge_views(edges@),
            eorder@ == stable_order(edge_keys(ev), ev.len()),
            eorder.len() == ev.len(),
            forall|r: int| 0 <= r < eorder.len() ==> (#[trigger] eorder@[r] as int) < ev.len(),
            q <= eorder.len(),
            edge_views(sorted@) == sorted_edges(ev).subrange(0, q as int),
        decreases eorder.len() - q,
    {
        let copy = copy_edge(&edges[eorder[q]]);
        let ghost before = sorted@;
        sorted.push(copy);
        proof {
            lemma_edge_views_push(before, copy);
            assert(sorted_edges(ev).subrange(0, q + 1) =~= sorted_edges(ev).subrange(0, q as int).push(ev[eorder@[q as int] as int]));
        }
        q = q + 1;
    }
    assert(sorted_edges(ev).subrange(0, q as int) =~= sorted_edges(ev));
    proof {
        assert forall|i: int| 0 <= i < ps.len() implies realizes(#[trigger] nodes@[i], ps[i]) by {
            assert(realizes(nodes@[0 + i], ps[i]));
        }
        crate::report_laws::lemma_report_cycles_exact(*st);
        crate::report_laws::lemma_report_valid_exact(*st);
        let ri = report_issues(*st);
        if exists|t: int| 0 <= t < report.issues@.len()
            && (#[trigger] report.issues@[t]).kind == GraphValidationIssueKind::CircularDependency {
            let t = choose|t: int| 0 <= t < report.issues@.len()
                && (#[trigger] report.issues@[t]).kind == GraphValidationIssueKind::CircularDependency;
            assert(ri[t].0 == report.issues@[t].kind);
        }
        if exists|t: int| 0 <= t < ri.len() && (#[trigger] ri[t]).0 == GraphValidationIssueKind::CircularDependency {
            let t = choose|t: int| 0 <= t < ri.len() && (#[trigger] ri[t]).0 == GraphValidationIssueKind::CircularDependency;
            assert(ri[t].0 == report.issues@[t].kind);
        }
    }
    (DependencyGraph { nodes, edges: sorted }, report)
}


/// The summary line of a list of issues.
pub open spec fn issues_summary(issues: Seq<IssueView>) -> Seq<char> {
    if issues.len() == 0 {
        "Dependency graph is valid"@
    } else {
        crate::text::join(issues.map_values(|i: IssueView| i.2), " | "@)
    }
}

/// The dependency graph of a build state.
pub fn dependency_graph(st: &GraphBuildState) -> (res: DependencyGraph)
    requires
        st.wf(),
    ensures
        res.nodes@.len() == plans(*st).len(),
        forall|i: int| 0 <= i < plans(*st).len() ==> realizes(#[trigger] res.nodes@[i], plans(*st)[i]),
        edge_views(res.edges@) == sorted_edges(scan_nodes(*st, plans(*st), plans(*st).len()).edges),
{
    build_dependency_graph_and_report(st).0
}

/// The validation report of a build state. It is empty exactly when every
/// declared dependency points to a node and the dependencies close no cycle.
pub fn validate_graph(st: &GraphBuildState) -> (res: GraphValidationReport)
    requires
        st.wf(),
    ensures
        issue_views(res.issues@) == report_issues(*st),
        res.issues@.len() == 0 <==> crate::report_laws::all_hints_bound(*st)
            && !crate::report_laws::edges_cycle(sorted_edges(scan_nodes(*st, plans(*st), plans(*st).len()).edges)),
{
    let (graph, report) = build_dependency_graph_and_report(st);
    proof {
        assert(edge_views(graph.edges@) == sorted_edges(scan_nodes(*st, plans(*st), plans(*st).len()).edges));
    }
    report
}

/// Validates a build state: `Ok` exactly when the report holds no issue;
/// otherwise a graph-validation error carrying the report's summary.
pub fn try_validate_graph(st: &GraphBuildState) -> (res: Result<(), Error>)
    requires
        st.wf(),
    ensures
        res is Ok <==> report_issues(*st).len() == 0,
        res is Ok <==> crate::report_laws::all_hints_bound(*st)
            && !crate::report_laws::edges_cycle(sorted_edges(scan_nodes(*st, plans(*st), plans(*st).len()).edges)),
        res matches Err(e) ==> e.kind == ErrorKind::GraphValidationFailed
            && e.message@ == "Dependency graph validation failed: "@ + issues_summary(report_issues(*st))
                + ". Check dependency_graph()/validate_graph() output for details."@,
{
    let report = validate_graph(st);
    if report.is_valid() {
        return Ok(());
    }
    let summary = report.summary();
    proof {
        assert(crate::graph::issue_messages(report.issues@) =~= issue_views(report.issues@).map_values(|i: IssueView| i.2));
    }
    Err(Error::graph_validation_failed(summary.as_str()))
}

} // verus!
