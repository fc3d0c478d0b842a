//! Graph metadata of registered providers: dependency hints, provider
//! metadata, and the merged registration state of an injector chain.
use vstd::prelude::*;
use vstd::string::*;
use std::any::TypeId;
use crate::graph::DependencyCardinality;
use crate::types::{Scope, unit_type_id};

verus! {

/// A declared dependency of a provider, used by graph tooling and eager resolution.
#[derive(Clone, Debug)]
pub struct DependencyHint {
    pub type_id: TypeId,
    pub type_label: &'static str,
    pub name: Option<String>,
    pub cardinality: DependencyCardinality,
    pub is_dynamic: bool,
}

/// The graph metadata of a typed provider.
#[derive(Clone, Debug)]
pub struct ProviderGraphMeta {
    pub type_id: TypeId,
    pub type_label: &'static str,
    pub scope: Scope,
    pub dependencies: Vec<DependencyHint>,
}

/// The graph metadata of a dynamic (string-keyed) provider.
#[derive(Clone, Debug)]
pub struct DynamicProviderGraphMeta {
    pub name: String,
    pub scope: Scope,
    pub dependencies: Vec<DependencyHint>,
}

/// The key of a named binding: a type and a name.
#[derive(Clone, Debug)]
pub struct NamedTypeKey {
    pub type_id: TypeId,
    pub name: String,
}

/// A named binding and its provider's metadata.
#[derive(Clone, Debug)]
pub struct NamedBinding {
    pub key: NamedTypeKey,
    pub meta: ProviderGraphMeta,
}

/// The set bindings of one type, in registration order.
#[derive(Clone, Debug)]
pub struct SetBinding {
    pub type_id: TypeId,
    pub metas: Vec<ProviderGraphMeta>,
}

/// The registrations visible from an injector: its own and its ancestors'.
#[derive(Clone, Debug)]
pub struct GraphBuildState {
    pub singles: Vec<ProviderGraphMeta>,
    pub named: Vec<NamedBinding>,
    pub sets: Vec<SetBinding>,
    pub dynamics: Vec<DynamicProviderGraphMeta>,
}

/// The view of an optional string.
pub open spec fn opt_view(o: Option<String>) -> Option<Seq<char>> {
    match o {
        Some(s) => Some(s@),
        None => None,
    }
}

impl GraphBuildState {
    /// Each single type, named key, set type and dynamic name occurs once, as
    /// in the maps that hold them.
    pub open spec fn wf(&self) -> bool {
        &&& forall|i: int, j: int| 0 <= i < j < self.singles@.len() ==> self.singles@[i].type_id != self.singles@[j].type_id
        &&& forall|i: int, j: int| 0 <= i < j < self.named@.len() ==>
            !(self.named@[i].key.type_id == self.named@[j].key.type_id && self.named@[i].key.name@ == self.named@[j].key.name@)
        &&& forall|i: int, j: int| 0 <= i < j < self.sets@.len() ==> self.sets@[i].type_id != self.sets@[j].type_id
        &&& forall|i: int, j: int| 0 <= i < j < self.dynamics@.len() ==> self.dynamics@[i].name@ != self.dynamics@[j].name@
    }
}

impl DependencyHint {
    /// A dependency on the single binding of a type.
    pub fn one(type_id: TypeId, type_label: &'static str) -> (res: Self)
        ensures
            res.type_id == type_id,
            res.type_label == type_label,
            res.name is None,
            res.cardinality == DependencyCardinality::One,
            !res.is_dynamic,
    {
        DependencyHint { type_id, type_label, name: None, cardinality: DependencyCardinality::One, is_dynamic: false }
    }

    /// A dependency on a named binding of a type.
    pub fn named(type_id: TypeId, type_label: &'static str, name: String) -> (res: Self)
        ensures
            res.type_id == type_id,
            res.type_label == type_label,
            res.name == Some(name),
            res.cardinality == DependencyCardinality::One,
            !res.is_dynamic,
    {
        DependencyHint { type_id, type_label, name: Some(name), cardinality: DependencyCardinality::One, is_dynamic: false }
    }

    /// A dependency on every set binding of a type.
    pub fn all(type_id: TypeId, type_label: &'static str) -> (res: Self)
        ensures
            res.type_id == type_id,
            res.type_label == type_label,
            res.name is None,
            res.cardinality == DependencyCardinality::All,
            !res.is_dynamic,
    {
        DependencyHint { type_id, type_label, name: None, cardinality: DependencyCardinality::All, is_dynamic: false }
    }

    /// A dependency on a dynamic provider by name. It carries the unit type's
    /// identifier and the label `<dynamic>`.
    pub fn dynamic(name: String) -> (res: Self)
        ensures
            res.type_label@ == "<dynamic>"@,
            res.name == Some(name),
            res.cardinality == DependencyCardinality::One,
            res.is_dynamic,
    {
        DependencyHint {
            type_id: unit_type_id(),
            type_label: "<dynamic>",
            name: Some(name),
            cardinality: DependencyCardinality::One,
            is_dynamic: true,
        }
    }
}

impl ProviderGraphMeta {
    /// The metadata of a provider of the given type.
    pub fn of(type_id: TypeId, type_label: &'static str, scope: Scope, dependencies: Vec<DependencyHint>) -> (res: Self)
        ensures
            res.type_id == type_id,
            res.type_label == type_label,
            res.scope == scope,
            res.dependencies == dependencies,
    {
        ProviderGraphMeta { type_id, type_label, scope, dependencies }
    }
}

impl NamedTypeKey {
    /// The key of the binding of a type under a name.
    pub fn of(type_id: TypeId, name: &str) -> (res: Self)
        ensures
            res.type_id == type_id,
            res.name@ == name@,
    {
        NamedTypeKey { type_id, name: String::from_str(name) }
    }
}


impl DependencyHint {
    /// An equal copy of the hint.
    pub fn copy(&self) -> (res: Self)
        ensures
            res == *self,
    {
        let name = match &self.name {
            Some(n) => Some(n.clone()),
            None => None,
        };
        DependencyHint {
            type_id: self.type_id,
            type_label: self.type_label,
            name,
            cardinality: self.cardinality,
            is_dynamic: self.is_dynamic,
        }
    }
}

/// Equal copies of a list of hints.
pub fn copy_hints(hints: &Vec<DependencyHint>) -> (res: Vec<DependencyHint>)
    ensures
        res@ == hints@,
{
    let mut res: Vec<DependencyHint> = Vec::new();
    let mut i: usize = 0;
    while i < hints.len()
        invariant
            i <= hints.len(),
            res@ == hints@.subrange(0, i as int),
        decreases hints.len() - i,
    {
        res.push(hints[i].copy());
        assert(res@ =~= hints@.subrange(0, i + 1));
        i = i + 1;
    }
    assert(hints@.subrange(0, i as int) =~= hints@);
    res
}

} // verus!
