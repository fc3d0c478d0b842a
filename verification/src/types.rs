//! Identity of Rust types, and the lifecycle scope of providers.
use vstd::prelude::*;
use std::any::TypeId;

verus! {

/// `std::any::TypeId`, carried through the library as an opaque identifier.
#[verifier::external_type_specification]
#[verifier::external_body]
pub struct ExTypeId(TypeId);

/// `TypeId`'s `clone`.
///
/// Trusted: `TypeId` is `Copy`, and its derived `clone` returns the same
/// identifier.
pub assume_specification[ <TypeId as Clone>::clone ](t: &TypeId) -> (res: TypeId)
    ensures
        res == *t,
;

/// Whether two type identifiers are the same.
///
/// Trusted: `TypeId`'s `==` holds exactly when both identify the same type;
/// the contract says that it agrees with equality of the values.
#[verifier::external_body]
pub(crate) fn same_type(a: &TypeId, b: &TypeId) -> (res: bool)
    ensures
        res == (*a == *b),
{
    *a == *b
}

/// The identifier of the unit type `()`, which dynamic dependency hints carry.
///
/// Trusted: calls `TypeId::of::<()>()`; nothing is stated of the value.
#[verifier::external_body]
pub(crate) fn unit_type_id() -> (res: TypeId) {
    TypeId::of::<()>()
}

/// Lifecycle scope of a provider.
#[derive(Clone, Copy, Debug, PartialEq, Eq, Structural)]
pub enum Scope {
    /// One instance, cached in the root injector.
    Root,
    /// One instance per injector (module).
    Module,
    /// One instance per scope created with `create_scope`.
    Scoped,
    /// A new instance on every resolution; never cached.
    Transient,
}

/// The text of a scope, as its `Display` shows it.
pub open spec fn scope_label(s: Scope) -> Seq<char> {
    match s {
        Scope::Root => "root"@,
        Scope::Module => "module"@,
        Scope::Scoped => "scoped"@,
        Scope::Transient => "transient"@,
    }
}

impl Scope {
    /// The text of the scope, as its `Display` shows it.
    pub fn as_str(&self) -> (res: &'static str)
        ensures
            res@ == scope_label(*self),
    {
        match self {
            Scope::Root => "root",
            Scope::Module => "module",
            Scope::Scoped => "scoped",
            Scope::Transient => "transient",
        }
    }
}

} // verus!
