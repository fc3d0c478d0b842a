//! Registration decisions of an injector and the merging of an injector
//! chain's registrations, over graph metadata.
use vstd::prelude::*;
use vstd::string::*;
use std::any::TypeId;
use crate::error::{Error, ErrorKind};
use crate::graph::DependencyCardinality;
use crate::graph_build::{find_single, find_dynamic, find_set, find_named, single_index, dynamic_index, set_index};
use crate::meta::{DependencyHint, DynamicProviderGraphMeta, GraphBuildState, NamedBinding, ProviderGraphMeta, SetBinding};
use crate::types::{Scope, scope_label};

verus! {

/// A declared dependency of a dynamic provider: on a typed provider, or on
/// another dynamic provider by name.
#[derive(Clone, Debug)]
pub enum DynamicDependency {
    /// Depends on a typed provider (bridges into the static graph).
    Static { type_id: TypeId, type_label: &'static str },
    /// Depends on another dynamic provider by name.
    Named(String),
}

/// The hint that a dynamic dependency stands for.
pub open spec fn dynamic_hint_matches(d: DynamicDependency, h: DependencyHint) -> bool {
    match d {
        DynamicDependency::Static { type_id, type_label } => {
            &&& h.type_id == type_id
            &&& h.type_label == type_label
            &&& h.name is None
            &&& h.cardinality == DependencyCardinality::One
            &&& !h.is_dynamic
        },
        DynamicDependency::Named(n) => {
            &&& h.type_label@ == "<dynamic>"@
            &&& h.name == Some(n)
            &&& h.cardinality == DependencyCardinality::One
            &&& h.is_dynamic
        },
    }
}

/// The dependency hints of a dynamic provider's declared dependencies.
pub fn dynamic_hints(deps: &Vec<DynamicDependency>) -> (res: Vec<DependencyHint>)
    ensures
        res@.len() == deps@.len(),
        forall|k: int| 0 <= k < deps@.len() ==> #[trigger] dynamic_hint_matches(deps@[k], res@[k]),
{
    let mut res: Vec<DependencyHint> = Vec::new();
    let mut k: usize = 0;
    while k < deps.len()
        invariant
            k <= deps.len(),
            res@.len() == k,
            forall|j: int| 0 <= j < k ==> #[trigger] dynamic_hint_matches(deps@[j], res@[j]),
        decreases deps.len() - k,
    {
        let h = match &deps[k] {
            DynamicDependency::Static { type_id, type_label } => DependencyHint::one(*type_id, *type_label),
            DynamicDependency::Named(n) => DependencyHint::dynamic(n.clone()),
        };
        res.push(h);
        k = k + 1;
    }
    res
}


/// The message of a duplicate registration.
pub open spec fn duplicate_message(type_label: Seq<char>, scope: Scope) -> Seq<char> {
    "Provider ("@ + scope_label(scope) + " scope) already registered for type: "@ + type_label
        + ". Use override_provider/try_override_provider to replace it."@
}

/// `singles` with `m` in place of the entry of its type, or appended.
pub open spec fn overlay_single(singles: Seq<ProviderGraphMeta>, m: ProviderGraphMeta) -> Seq<ProviderGraphMeta> {
    if exists|i: int| 0 <= i < singles.len() && singles[i].type_id == m.type_id {
        singles.update(choose|i: int| 0 <= i < singles.len() && singles[i].type_id == m.type_id, m)
    } else {
        singles.push(m)
    }
}

impl GraphBuildState {
    /// A state with no registrations.
    pub fn new() -> (res: Self)
        ensures
            res.singles@.len() == 0,
            res.named@.len() == 0,
            res.sets@.len() == 0,
            res.dynamics@.len() == 0,
            res.wf(),
    {
        GraphBuildState { singles: Vec::new(), named: Vec::new(), sets: Vec::new(), dynamics: Vec::new() }
    }

    /// Registers the single provider of a type. A second provider for the
    /// same type is refused, and the state is left as it was.
    pub fn register_single(&mut self, meta: ProviderGraphMeta) -> (res: Result<(), Error>)
        requires
            old(self).wf(),
        ensures
            final(self).wf(),
            match single_index(*old(self), meta.type_id) {
                Some(_) => {
                    &&& res matches Err(e)
                    &&& e.kind == ErrorKind::ProviderAlreadyRegistered
                    &&& e.message@ == duplicate_message(meta.type_label@, meta.scope)
                    &&& *final(self) == *old(self)
                },
                None => {
                    &&& res is Ok
                    &&& final(self).singles@ == old(self).singles@.push(meta)
                    &&& final(self).named == old(self).named
                    &&& final(self).sets == old(self).sets
                    &&& final(self).dynamics == old(self).dynamics
                },
            },
    {
        if find_single(self, &meta.type_id).is_some() {
            return Err(Error::provider_already_registered(meta.type_label, meta.scope.as_str()));
        }
        let ghost before = self.singles@;
        self.singles.push(meta);
        proof {
            assert forall|i: int, j: int| 0 <= i < j < self.singles@.len() implies
                self.singles@[i].type_id != self.singles@[j].type_id by {
                if j == before.len() {
                    assert(self.singles@[i] == before[i]);
                }
            }
        }
        Ok(())
    }

    /// Appends a provider to the set bindings of its type.
    pub fn register_set_member(&mut self, meta: ProviderGraphMeta)
        requires
            old(self).wf(),
        ensures
            final(self).wf(),
            final(self).singles == old(self).singles,
            final(self).named == old(self).named,
            final(self).dynamics == old(self).dynamics,
            match set_index(*old(self), meta.type_id) {
                Some(i) => {
                    &&& final(self).sets@.len() == old(self).sets@.len()
                    &&& forall|j: int| 0 <= j < old(self).sets@.len() && j != i ==> #[trigger] final(self).sets@[j] == old(self).sets@[j]
                    &&& final(self).sets@[i].type_id == old(self).sets@[i].type_id
                    &&& final(self).sets@[i].metas@ == old(self).sets@[i].metas@.push(meta)
                },
                None => {
                    &&& final(self).sets@.len() == old(self).sets@.len() + 1
                    &&& forall|j: int| 0 <= j < old(self).sets@.len() ==> #[trigger] final(self).sets@[j] == old(self).sets@[j]
                    &&& final(self).sets@.last().type_id == meta.type_id
                    &&& final(self).sets@.last().metas@ == seq![meta]
                },
            },
    {
        let ghost before = self.sets@;
        match find_set(self, &meta.type_id) {
            Some(i) => {
                self.sets[i].metas.push(meta);
                proof {
                    assert forall|a: int, b: int| 0 <= a < b < self.sets@.len() implies
                        self.sets@[a].type_id != self.sets@[b].type_id by {
                        assert(self.sets@[a].type_id == before[a].type_id);
                        assert(self.sets@[b].type_id == before[b].type_id);
                    }
                }
            },
            None => {
                let tid = meta.type_id;
                let mut metas: Vec<ProviderGraphMeta> = Vec::new();
                metas.push(meta);
                self.sets.push(SetBinding { type_id: tid, metas });
                proof {
                    assert(self.sets@.last().metas@ =~= seq![meta]);
                    assert forall|a: int, b: int| 0 <= a < b < self.sets@.len() implies
                        self.sets@[a].type_id != self.sets@[b].type_id by {
                        if b == before.len() {
                            assert(self.sets@[a] == before[a]);
                        }
                    }
                }
            },
        }
    }

    /// Registers a dynamic provider under `name`. A second provider with the
    /// same name is refused, and the state is left as it was.
    pub fn register_dynamic(&mut self, name: String, scope: Scope, deps: &Vec<DynamicDependency>) -> (res: Result<(), Error>)
        requires
            old(self).wf(),
        ensures
            final(self).wf(),
            match dynamic_index(*old(self), name@) {
                Some(_) => {
                    &&& res matches Err(e)
                    &&& e.kind == ErrorKind::ProviderAlreadyRegistered
                    &&& e.message@ == duplicate_message(name@, scope)
                    &&& *final(self) == *old(self)
                },
                None => {
                    &&& res is Ok
                    &&& final(self).dynamics@.len() == old(self).dynamics@.len() + 1
                    &&& forall|j: int| 0 <= j < old(self).dynamics@.len() ==> #[trigger] final(self).dynamics@[j] == old(self).dynamics@[j]
                    &&& final(self).dynamics@.last().name@ == name@
                    &&& final(self).dynamics@.last().scope == scope
                    &&& final(self).dynamics@.last().dependencies@.len() == deps@.len()
                    &&& forall|k: int| 0 <= k < deps@.len() ==>
                        #[trigger] dynamic_hint_matches(deps@[k], final(self).dynamics@.last().dependencies@[k])
                    &&& final(self).singles == old(self).singles
                    &&& final(self).named == old(self).named
                    &&& final(self).sets == old(self).sets
                },
            },
    {
        if find_dynamic(self, &name).is_some() {
            return Err(Error::provider_already_registered(name.as_str(), scope.as_str()));
        }
        let dependencies = dynamic_hints(deps);
        let ghost before = self.dynamics@;
        self.dynamics.push(DynamicProviderGraphMeta { name, scope, dependencies });
        proof {
            assert forall|a: int, b: int| 0 <= a < b < self.dynamics@.len() implies
                self.dynamics@[a].name@ != self.dynamics@[b].name@ by {
                if b == before.len() {
                    assert(self.dynamics@[a] == before[a]);
                }
            }
        }
        Ok(())
    }
}


/// `singles` with each of `layer` put in place of the entry of its type, or appended.
pub open spec fn overlay_singles(singles: Seq<ProviderGraphMeta>, layer: Seq<ProviderGraphMeta>) -> Seq<ProviderGraphMeta>
    decreases layer.len(),
{
    if layer.len() == 0 {
        singles
    } else {
        overlay_single(overlay_singles(singles, layer.drop_last()), layer.last())
    }
}

/// `named` with `b` in place of the binding of its key, or appended.
pub open spec fn overlay_named_one(named: Seq<NamedBinding>, b: NamedBinding) -> Seq<NamedBinding> {
    if exists|i: int| 0 <= i < named.len() && named[i].key.type_id == b.key.type_id && named[i].key.name@ == b.key.name@ {
        named.update(
            choose|i: int| 0 <= i < named.len() && named[i].key.type_id == b.key.type_id && named[i].key.name@ == b.key.name@,
            b,
        )
    } else {
        named.push(b)
    }
}

/// `named` overlaid with each binding of `layer` in turn.
pub open spec fn overlay_named(named: Seq<NamedBinding>, layer: Seq<NamedBinding>) -> Seq<NamedBinding>
    decreases layer.len(),
{
    if layer.len() == 0 {
        named
    } else {
        overlay_named_one(overlay_named(named, layer.drop_last()), layer.last())
    }
}

/// `dynamics` with `d` in place of the provider of its name, or appended.
pub open spec fn overlay_dynamic(dynamics: Seq<DynamicProviderGraphMeta>, d: DynamicProviderGraphMeta) -> Seq<DynamicProviderGraphMeta> {
    if exists|i: int| 0 <= i < dynamics.len() && dynamics[i].name@ == d.name@ {
        dynamics.update(choose|i: int| 0 <= i < dynamics.len() && dynamics[i].name@ == d.name@, d)
    } else {
        dynamics.push(d)
    }
}

/// `dynamics` overlaid with each provider of `layer` in turn.
pub open spec fn overlay_dynamics(dynamics: Seq<DynamicProviderGraphMeta>, layer: Seq<DynamicProviderGraphMeta>) -> Seq<DynamicProviderGraphMeta>
    decreases layer.len(),
{
    if layer.len() == 0 {
        dynamics
    } else {
        overlay_dynamic(overlay_dynamics(dynamics, layer.drop_last()), layer.last())
    }
}

/// The members of each set: the type, and the views of its members in order.
pub open spec fn set_members(sets: Seq<SetBinding>) -> Seq<(TypeId, Seq<ProviderGraphMeta>)> {
    sets.map_values(|b: SetBinding| (b.type_id, b.metas@))
}

/// `sets` with the members `ms` of type `t` appended to that type's set, or a new set.
pub open spec fn extend_set(sets: Seq<(TypeId, Seq<ProviderGraphMeta>)>, t: TypeId, ms: Seq<ProviderGraphMeta>)
    -> Seq<(TypeId, Seq<ProviderGraphMeta>)> {
    if exists|i: int| 0 <= i < sets.len() && sets[i].0 == t {
        let i = choose|i: int| 0 <= i < sets.len() && sets[i].0 == t;
        sets.update(i, (t, sets[i].1 + ms))
    } else {
        sets.push((t, ms))
    }
}

/// `sets` extended with each set of `layer` in turn.
pub open spec fn extend_sets(sets: Seq<(TypeId, Seq<ProviderGraphMeta>)>, layer: Seq<(TypeId, Seq<ProviderGraphMeta>)>)
    -> Seq<(TypeId, Seq<ProviderGraphMeta>)>
    decreases layer.len(),
{
    if layer.len() == 0 {
        sets
    } else {
        let s = extend_sets(sets, layer.drop_last());
        extend_set(s, layer.last().0, layer.last().1)
    }
}

impl GraphBuildState {
    /// Puts `m` in place of the single binding of its type, or appends it.
    fn overlay_single_exec(&mut self, m: ProviderGraphMeta)
        requires
            old(self).wf(),
        ensures
            final(self).wf(),
            final(self).singles@ == overlay_single(old(self).singles@, m),
            final(self).named == old(self).named,
            final(self).sets == old(self).sets,
            final(self).dynamics == old(self).dynamics,
    {
        let ghost before = self.singles@;
        match find_single(self, &m.type_id) {
            Some(i) => {
                self.singles.set(i, m);
                proof {
                    assert forall|a: int, b: int| 0 <= a < b < self.singles@.len() implies
                        self.singles@[a].type_id != self.singles@[b].type_id by {
                        assert(self.singles@[a].type_id == before[a].type_id);
                        assert(self.singles@[b].type_id == before[b].type_id);
                    }
                }
            },
            None => {
                self.singles.push(m);
                proof {
                    assert forall|a: int, b: int| 0 <= a < b < self.singles@.len() implies
                        self.singles@[a].type_id != self.singles@[b].type_id by {
                        if b == before.len() {
                            assert(self.singles@[a] == before[a]);
                        }
                    }
                }
            },
        }
    }

    /// Puts `b` in place of the binding of its key, or appends it.
    fn overlay_named_exec(&mut self, b: NamedBinding)
        requires
            old(self).wf(),
        ensures
            final(self).wf(),
            final(self).named@ == overlay_named_one(old(self).named@, b),
            final(self).singles == old(self).singles,
            final(self).sets == old(self).sets,
            final(self).dynamics == old(self).dynamics,
    {
        let ghost before = self.named@;
        match find_named(self, &b.key.type_id, &b.key.name) {
            Some(i) => {
                self.named.set(i, b);
                proof {
                    assert forall|x: int, y: int| 0 <= x < y < self.named@.len() implies
                        !(self.named@[x].key.type_id == self.named@[y].key.type_id && self.named@[x].key.name@ == self.named@[y].key.name@) by {
                        assert(self.named@[x].key.type_id == before[x].key.type_id && self.named@[x].key.name@ == before[x].key.name@);
                        assert(self.named@[y].key.type_id == before[y].key.type_id && self.named@[y].key.name@ == before[y].key.name@);
                    }
                }
            },
            None => {
                self.named.push(b);
                proof {
                    assert forall|x: int, y: int| 0 <= x < y < self.named@.len() implies
                        !(self.named@[x].key.type_id == self.named@[y].key.type_id && self.named@[x].key.name@ == self.named@[y].key.name@) by {
                        if y == before.len() {
                            assert(self.named@[x] == before[x]);
                        }
                    }
                }
            },
        }
    }

    /// Puts `d` in place of the dynamic provider of its name, or appends it.
    fn overlay_dynamic_exec(&mut self, d: DynamicProviderGraphMeta)
        requires
            old(self).wf(),
        ensures
            final(self).wf(),
            final(self).dynamics@ == overlay_dynamic(old(self).dynamics@, d),
            final(self).singles == old(self).singles,
            final(self).named == old(self).named,
            final(self).sets == old(self).sets,
    {
        let ghost before = self.dynamics@;
        match find_dynamic(self, &d.name) {
            Some(i) => {
                self.dynamics.set(i, d);
                proof {
                    assert forall|a: int, b: int| 0 <= a < b < self.dynamics@.len() implies
                        self.dynamics@[a].name@ != self.dynamics@[b].name@ by {
                        assert(self.dynamics@[a].name@ == before[a].name@);
                        assert(self.dynamics@[b].name@ == before[b].name@);
                    }
                }
            },
            None => {
                self.dynamics.push(d);
                proof {
                    assert forall|a: int, b: int| 0 <= a < b < self.dynamics@.len() implies
                        self.dynamics@[a].name@ != self.dynamics@[b].name@ by {
                        if b == before.len() {
                            assert(self.dynamics@[a] == before[a]);
                        }
                    }
                }
            },
        }
    }

    /// Appends the members `metas` to the set of type `t`, or adds the set.
    fn extend_set_exec(&mut self, t: TypeId, metas: Vec<ProviderGraphMeta>)
        requires
            old(self).wf(),
        ensures
            final(self).wf(),
            set_members(final(self).sets@) == extend_set(set_members(old(self).sets@), t, metas@),
            final(self).singles == old(self).singles,
            final(self).named == old(self).named,
            final(self).dynamics == old(self).dynamics,
    {
        let ghost before = self.sets@;
        let ghost sm = set_members(before);
        let mut metas = metas;
        let ghost ms = metas@;
        match find_set(self, &t) {
            Some(i) => {
                proof {
                    assert(sm[i as int].0 == t);
                    let c = choose|c: int| 0 <= c < sm.len() && sm[c].0 == t;
                    if c != i as int {
                        if c < i as int {
                            assert(before[c].type_id != before[i as int].type_id);
                        } else {
                            assert(before[i as int].type_id != before[c].type_id);
                        }
                    }
                }
                self.sets[i].metas.append(&mut metas);
                proof {
                    assert(set_members(self.sets@) =~= extend_set(sm, t, ms));
                    assert forall|a: int, b: int| 0 <= a < b < self.sets@.len() implies
                        self.sets@[a].type_id != self.sets@[b].type_id by {
                        assert(self.sets@[a].type_id == before[a].type_id);
                        assert(self.sets@[b].type_id == before[b].type_id);
                    }
                }
            },
            None => {
                self.sets.push(SetBinding { type_id: t, metas });
                proof {
                    assert(!(exists|i: int| 0 <= i < sm.len() && sm[i].0 == t)) by {
                        if exists|i: int| 0 <= i < sm.len() && sm[i].0 == t {
                            let i = choose|i: int| 0 <= i < sm.len() && sm[i].0 == t;
                            assert(before[i].type_id == t);
                        }
                    }
                    assert(set_members(self.sets@) =~= extend_set(sm, t, ms));
                    assert forall|a: int, b: int| 0 <= a < b < self.sets@.len() implies
                        self.sets@[a].type_id != self.sets@[b].type_id by {
                        if b == before.len() {
                            assert(self.sets@[a] == before[a]);
                        }
                    }
                }
            },
        }
    }

    /// Adds the registrations of a nearer injector: its single, named and
    /// dynamic bindings replace those of the same key; its set members are
    /// appended after those of the same type.
    /// A nearer injector with no registrations of its own leaves the state
    /// exactly as it was, so it sees its parent's graph.
    pub fn absorb(&mut self, layer: GraphBuildState)
        requires
            old(self).wf(),
        ensures
            final(self).wf(),
            final(self).singles@ == overlay_singles(old(self).singles@, layer.singles@),
            final(self).named@ == overlay_named(old(self).named@, layer.named@),
            set_members(final(self).sets@) == extend_sets(set_members(old(self).sets@), set_members(layer.sets@)),
            final(self).dynamics@ == overlay_dynamics(old(self).dynamics@, layer.dynamics@),
            layer.singles@.len() == 0 && layer.named@.len() == 0 && layer.sets@.len() == 0
                && layer.dynamics@.len() == 0 ==> *final(self) == *old(self),
    {
        let mut layer = layer;
        let ghost l0 = layer;
        let ghost s0 = *self;
        let ghost empty_layer = l0.singles@.len() == 0 && l0.named@.len() == 0 && l0.sets@.len() == 0
            && l0.dynamics@.len() == 0;
        let ghost mut k: int = 0;
        while layer.singles.len() > 0
            invariant
                self.wf(),
                empty_layer == (l0.singles@.len() == 0 && l0.named@.len() == 0 && l0.sets@.len() == 0
                    && l0.dynamics@.len() == 0),
                empty_layer ==> *self == s0,
                0 <= k <= l0.singles@.len(),
                layer.singles@ == l0.singles@.subrange(k as int, l0.singles@.len() as int),
                layer.named == l0.named,
                layer.sets == l0.sets,
                layer.dynamics == l0.dynamics,
                self.singles@ == overlay_singles(s0.singles@, l0.singles@.subrange(0, k as int)),
                self.named == s0.named,
                self.sets == s0.sets,
                self.dynamics == s0.dynamics,
            decreases layer.singles.len(),
        {
            assert(layer.singles@[0] == l0.singles@[k]);
            let m = layer.singles.remove(0);
            proof {
                assert(l0.singles@.subrange(0, k + 1).drop_last() =~= l0.singles@.subrange(0, k as int));
                assert(l0.singles@.subrange(0, k + 1).last() == m);
            }
            self.overlay_single_exec(m);
            proof {
                k = k + 1;
            }
            assert(layer.singles@ =~= l0.singles@.subrange(k as int, l0.singles@.len() as int));
        }
        assert(l0.singles@.subrange(0, k as int) =~= l0.singles@);
        let ghost mut k: int = 0;
        while layer.named.len() > 0
            invariant
                self.wf(),
                empty_layer == (l0.singles@.len() == 0 && l0.named@.len() == 0 && l0.sets@.len() == 0
                    && l0.dynamics@.len() == 0),
                empty_layer ==> *self == s0,
                0 <= k <= l0.named@.len(),
                layer.named@ == l0.named@.subrange(k as int, l0.named@.len() as int),
                layer.sets == l0.sets,
                layer.dynamics == l0.dynamics,
                self.singles@ == overlay_singles(s0.singles@, l0.singles@),
                self.named@ == overlay_named(s0.named@, l0.named@.subrange(0, k as int)),
                self.sets == s0.sets,
                self.dynamics == s0.dynamics,
            decreases layer.named.len(),
        {
            assert(layer.named@[0] == l0.named@[k]);
            let b = layer.named.remove(0);
            proof {
                assert(l0.named@.subrange(0, k + 1).drop_last() =~= l0.named@.subrange(0, k as int));
                assert(l0.named@.subrange(0, k + 1).last() == b);
            }
            self.overlay_named_exec(b);
            proof {
                k = k + 1;
            }
            assert(layer.named@ =~= l0.named@.subrange(k as int, l0.named@.len() as int));
        }
        assert(l0.named@.subrange(0, k as int) =~= l0.named@);
        let ghost mut k: int = 0;
        while layer.sets.len() > 0
            invariant
                self.wf(),
                empty_layer == (l0.singles@.len() == 0 && l0.named@.len() == 0 && l0.sets@.len() == 0
                    && l0.dynamics@.len() == 0),
                empty_layer ==> *self == s0,
                0 <= k <= l0.sets@.len(),
                layer.sets@ == l0.sets@.subrange(k as int, l0.sets@.len() as int),
                layer.dynamics == l0.dynamics,
                self.singles@ == overlay_singles(s0.singles@, l0.singles@),
                self.named@ == overlay_named(s0.named@, l0.named@),
                set_members(self.sets@) == extend_sets(set_members(s0.sets@), set_members(l0.sets@.subrange(0, k as int))),
                self.dynamics == s0.dynamics,
            decreases layer.sets.len(),
        {
            assert(layer.sets@[0] == l0.sets@[k]);
            let b = layer.sets.remove(0);
            proof {
                assert(set_members(l0.sets@.subrange(0, k + 1)).drop_last() =~= set_members(l0.sets@.subrange(0, k as int)));
                assert(l0.sets@.subrange(0, k + 1).last() == b);
            }
            self.extend_set_exec(b.type_id, b.metas);
            proof {
                k = k + 1;
            }
            assert(layer.sets@ =~= l0.sets@.subrange(k as int, l0.sets@.len() as int));
        }
        assert(l0.sets@.subrange(0, k as int) =~= l0.sets@);
        let ghost mut k: int = 0;
        while layer.dynamics.len() > 0
            invariant
                self.wf(),
                empty_layer == (l0.singles@.len() == 0 && l0.named@.len() == 0 && l0.sets@.len() == 0
                    && l0.dynamics@.len() == 0),
                empty_layer ==> *self == s0,
                0 <= k <= l0.dynamics@.len(),
                layer.dynamics@ == l0.dynamics@.subrange(k as int, l0.dynamics@.len() as int),
                self.singles@ == overlay_singles(s0.singles@, l0.singles@),
                self.named@ == overlay_named(s0.named@, l0.named@),
                set_members(self.sets@) == extend_sets(set_members(s0.sets@), set_members(l0.sets@)),
                self.dynamics@ == overlay_dynamics(s0.dynamics@, l0.dynamics@.subrange(0, k as int)),
            decreases layer.dynamics.len(),
        {
            assert(layer.dynamics@[0] == l0.dynamics@[k]);
            let d = layer.dynamics.remove(0);
            proof {
                assert(l0.dynamics@.subrange(0, k + 1).drop_last() =~= l0.dynamics@.subrange(0, k as int));
                assert(l0.dynamics@.subrange(0, k + 1).last() == d);
            }
            self.overlay_dynamic_exec(d);
            proof {
                k = k + 1;
            }
            assert(layer.dynamics@ =~= l0.dynamics@.subrange(k as int, l0.dynamics@.len() as int));
        }
        assert(l0.dynamics@.subrange(0, k as int) =~= l0.dynamics@);
    }
}

} // verus!
