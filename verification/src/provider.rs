//! The declared part of a provider: its lifecycle scope and the dependency
//! hints that graph tooling and eager resolution read.
use vstd::prelude::*;
use std::any::TypeId;
use crate::graph::DependencyCardinality;
use crate::meta::{DependencyHint, ProviderGraphMeta, copy_hints};
use crate::types::Scope;

verus! {

/// What a provider declares besides its factory: scope and dependency hints.
#[derive(Clone, Debug)]
pub struct Provider {
    pub scope: Scope,
    pub dependency_hints: Vec<DependencyHint>,
}

impl Provider {
    /// A provider of the given scope with no declared dependency.
    pub fn new(scope: Scope) -> (res: Self)
        ensures
            res.scope == scope,
            res.dependency_hints@.len() == 0,
    {
        Provider { scope, dependency_hints: Vec::new() }
    }

    /// Declares a dependency on the single service of a type. The hint serves
    /// graph tooling and does not change resolution.
    pub fn with_dependency(self, type_id: TypeId, type_label: &'static str) -> (res: Self)
        ensures
            res.scope == self.scope,
            res.dependency_hints@.len() == self.dependency_hints@.len() + 1,
            res.dependency_hints@.drop_last() == self.dependency_hints@,
            res.dependency_hints@.last().type_id == type_id,
            res.dependency_hints@.last().type_label == type_label,
            res.dependency_hints@.last().name is None,
            res.dependency_hints@.last().cardinality == DependencyCardinality::One,
            !res.dependency_hints@.last().is_dynamic,
    {
        let mut p = self;
        p.dependency_hints.push(DependencyHint::one(type_id, type_label));
        assert(p.dependency_hints@.drop_last() =~= self.dependency_hints@);
        p
    }

    /// Declares a dependency on a named service of a type.
    pub fn with_named_dependency(self, type_id: TypeId, type_label: &'static str, name: String) -> (res: Self)
        ensures
            res.scope == self.scope,
            res.dependency_hints@.len() == self.dependency_hints@.len() + 1,
            res.dependency_hints@.drop_last() == self.dependency_hints@,
            res.dependency_hints@.last().type_id == type_id,
            res.dependency_hints@.last().type_label == type_label,
            res.dependency_hints@.last().name == Some(name),
            res.dependency_hints@.last().cardinality == DependencyCardinality::One,
            !res.dependency_hints@.last().is_dynamic,
    {
        let mut p = self;
        p.dependency_hints.push(DependencyHint::named(type_id, type_label, name));
        assert(p.dependency_hints@.drop_last() =~= self.dependency_hints@);
        p
    }

    /// Declares a dependency on every set binding of a type.
    pub fn with_set_dependency(self, type_id: TypeId, type_label: &'static str) -> (res: Self)
        ensures
            res.scope == self.scope,
            res.dependency_hints@.len() == self.dependency_hints@.len() + 1,
            res.dependency_hints@.drop_last() == self.dependency_hints@,
            res.dependency_hints@.last().type_id == type_id,
            res.dependency_hints@.last().type_label == type_label,
            res.dependency_hints@.last().name is None,
            res.dependency_hints@.last().cardinality == DependencyCardinality::All,
            !res.dependency_hints@.last().is_dynamic,
    {
        let mut p = self;
        p.dependency_hints.push(DependencyHint::all(type_id, type_label));
        assert(p.dependency_hints@.drop_last() =~= self.dependency_hints@);
        p
    }

    /// Declares a dependency on a dynamic provider by name.
    pub fn with_dynamic_dependency(self, name: String) -> (res: Self)
        ensures
            res.scope == self.scope,
            res.dependency_hints@.len() == self.dependency_hints@.len() + 1,
            res.dependency_hints@.drop_last() == self.dependency_hints@,
            res.dependency_hints@.last().type_label@ == "<dynamic>"@,
            res.dependency_hints@.last().name == Some(name),
            res.dependency_hints@.last().cardinality == DependencyCardinality::One,
            res.dependency_hints@.last().is_dynamic,
    {
        let mut p = self;
        p.dependency_hints.push(DependencyHint::dynamic(name));
        assert(p.dependency_hints@.drop_last() =~= self.dependency_hints@);
        p
    }

    /// The graph metadata of this provider as the provider of a type.
    pub fn graph_meta(&self, type_id: TypeId, type_label: &'static str) -> (res: ProviderGraphMeta)
        ensures
            res.type_id == type_id,
            res.type_label == type_label,
            res.scope == self.scope,
            res.dependencies@ == self.dependency_hints@,
    {
        ProviderGraphMeta::of(type_id, type_label, self.scope, copy_hints(&self.dependency_hints))
    }
}

} // verus!
