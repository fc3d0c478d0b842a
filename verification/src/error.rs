//! Error model of the container: a coarse category and a human-readable message.
//!
//! The constructors keep messages uniform across call sites; each contract
//! states the message exactly.
use vstd::prelude::*;
use vstd::string::*;
use crate::text::{decimal, decimal_string, join, join_strs, str_views};

verus! {

/// Error categories of the container.
#[derive(Clone, Copy, Debug, PartialEq, Eq, Structural)]
pub enum ErrorKind {
    /// Service provider not found for the requested type.
    ServiceNotProvided,
    /// Type mismatch during downcast or resolution.
    TypeMismatch,
    /// Factory closure already registered for this type.
    ProviderAlreadyRegistered,
    /// Circular dependency detected in resolution chain.
    CircularDependency,
    /// Async provider was resolved through a synchronous resolve method.
    AsyncFactoryRequiresAsyncResolve,
    /// Service creation was denied by configured resource limits.
    ResourceLimitExceeded,
    /// Module lifecycle hook failed.
    ModuleLifecycleFailed,
    /// Dependency graph validation failed.
    GraphValidationFailed,
    /// Dynamic provider not found by name.
    DynamicProviderNotFound,
    /// One or more providers failed during eager resolution.
    EagerResolutionFailed,
}

/// Container error: `kind` for programmatic handling, `message` for people.
#[derive(Clone, Debug)]
pub struct Error {
    pub kind: ErrorKind,
    pub message: String,
}

/// The numbered lines of an aggregated error: `"  {i}) {message}"`, from 1.
pub open spec fn numbered_lines(messages: Seq<Seq<char>>) -> Seq<Seq<char>> {
    Seq::new(messages.len(), |i: int| "  "@ + decimal((i + 1) as nat) + ") "@ + messages[i])
}

/// The messages of a sequence of errors.
pub open spec fn messages_of(errors: Seq<Error>) -> Seq<Seq<char>> {
    errors.map_values(|e: Error| e.message@)
}

/// The message of an aggregated error with the given headline prefix.
pub open spec fn aggregate_message(headline: Seq<char>, errors: Seq<Error>) -> Seq<char> {
    headline + decimal(errors.len()) + " module(s) reported errors:\n"@
        + join(numbered_lines(messages_of(errors)), "\n"@)
}

impl Error {
    /// Creates a new error with the given kind and message.
    pub fn new(kind: ErrorKind, message: String) -> (res: Self)
        ensures
            res.kind == kind,
            res.message@ == message@,
    {
        Error { kind, message }
    }

    /// The text of the error, as its `Display` shows it: the message.
    pub fn to_string(&self) -> (res: String)
        ensures
            res@ == self.message@,
    {
        self.message.clone()
    }

    /// Service provider not found for the requested type.
    pub fn service_not_provided(type_label: &str) -> (res: Self)
        ensures
            res.kind == ErrorKind::ServiceNotProvided,
            res.message@ == "No provider registered for type: "@ + type_label@
                + ". Register it in Module::configure(...) with injector.provide::<T>(Provider::...)."@,
    {
        let mut m = String::from_str("No provider registered for type: ");
        m.append(type_label);
        m.append(". Register it in Module::configure(...) with injector.provide::<T>(Provider::...).");
        Self::new(ErrorKind::ServiceNotProvided, m)
    }

    /// Named service provider not found for the requested type.
    pub fn service_not_provided_named(type_label: &str, name: &str) -> (res: Self)
        ensures
            res.kind == ErrorKind::ServiceNotProvided,
            res.message@ == "No provider registered for type: "@ + type_label@ + " with name: "@ + name@
                + ". Register it with provide_named/try_provide_named."@,
    {
        let mut m = String::from_str("No provider registered for type: ");
        m.append(type_label);
        m.append(" with name: ");
        m.append(name);
        m.append(". Register it with provide_named/try_provide_named.");
        Self::new(ErrorKind::ServiceNotProvided, m)
    }

    /// Override requested for a type that has no registered provider.
    pub fn service_not_provided_for_override(type_label: &str) -> (res: Self)
        ensures
            res.kind == ErrorKind::ServiceNotProvided,
            res.message@ == "Cannot override provider for type: "@ + type_label@
                + " because no provider is registered. Register one first with provide/try_provide."@,
    {
        let mut m = String::from_str("Cannot override provider for type: ");
        m.append(type_label);
        m.append(" because no provider is registered. Register one first with provide/try_provide.");
        Self::new(ErrorKind::ServiceNotProvided, m)
    }

    /// Type mismatch during downcast or factory execution.
    pub fn type_mismatch(type_label: &str) -> (res: Self)
        ensures
            res.kind == ErrorKind::TypeMismatch,
            res.message@ == "Type mismatch when resolving: "@ + type_label@,
    {
        let mut m = String::from_str("Type mismatch when resolving: ");
        m.append(type_label);
        Self::new(ErrorKind::TypeMismatch, m)
    }

    /// Provider already registered for this type.
    pub fn provider_already_registered(type_label: &str, scope: &str) -> (res: Self)
        ensures
            res.kind == ErrorKind::ProviderAlreadyRegistered,
            res.message@ == "Provider ("@ + scope@ + " scope) already registered for type: "@ + type_label@
                + ". Use override_provider/try_override_provider to replace it."@,
    {
        let mut m = String::from_str("Provider (");
        m.append(scope);
        m.append(" scope) already registered for type: ");
        m.append(type_label);
        m.append(". Use override_provider/try_override_provider to replace it.");
        Self::new(ErrorKind::ProviderAlreadyRegistered, m)
    }

    /// Named provider already registered for this type.
    pub fn provider_already_registered_named(type_label: &str, name: &str, scope: &str) -> (res: Self)
        ensures
            res.kind == ErrorKind::ProviderAlreadyRegistered,
            res.message@ == "Provider ("@ + scope@ + " scope) already registered for type: "@ + type_label@
                + " with name: "@ + name@ + "."@,
    {
        let mut m = String::from_str("Provider (");
        m.append(scope);
        m.append(" scope) already registered for type: ");
        m.append(type_label);
        m.append(" with name: ");
        m.append(name);
        m.append(".");
        Self::new(ErrorKind::ProviderAlreadyRegistered, m)
    }

    /// Circular dependency detected in a resolution chain.
    pub fn circular_dependency(dependency_chain: &[&str]) -> (res: Self)
        ensures
            res.kind == ErrorKind::CircularDependency,
            res.message@ == "Circular dependency detected: "@ + join(str_views(dependency_chain@), " -> "@)
                + ". Break the cycle by introducing a trait boundary, lazy lookup, or refactoring the dependency direction."@,
    {
        let mut m = String::from_str("Circular dependency detected: ");
        let chain = join_strs(dependency_chain, " -> ");
        m.append(chain.as_str());
        m.append(". Break the cycle by introducing a trait boundary, lazy lookup, or refactoring the dependency direction.");
        Self::new(ErrorKind::CircularDependency, m)
    }

    /// Async provider resolved through a synchronous resolve method.
    pub fn async_factory_requires_async_resolve(type_label: &str) -> (res: Self)
        ensures
            res.kind == ErrorKind::AsyncFactoryRequiresAsyncResolve,
            res.message@ == "Type "@ + type_label@
                + " is registered with an async provider; use try_resolve_async/resolve_async"@,
    {
        let mut m = String::from_str("Type ");
        m.append(type_label);
        m.append(" is registered with an async provider; use try_resolve_async/resolve_async");
        Self::new(ErrorKind::AsyncFactoryRequiresAsyncResolve, m)
    }

    /// Service creation was denied by configured resource limits.
    pub fn resource_limit_exceeded(type_label: &str, details: &str) -> (res: Self)
        ensures
            res.kind == ErrorKind::ResourceLimitExceeded,
            res.message@ == "Resource limit exceeded while creating type "@ + type_label@ + ": "@ + details@,
    {
        let mut m = String::from_str("Resource limit exceeded while creating type ");
        m.append(type_label);
        m.append(": ");
        m.append(details);
        Self::new(ErrorKind::ResourceLimitExceeded, m)
    }

    /// Module lifecycle hook failed.
    pub fn module_lifecycle_failed(module_name: &str, phase: &str, details: &str) -> (res: Self)
        ensures
            res.kind == ErrorKind::ModuleLifecycleFailed,
            res.message@ == "Module lifecycle failed: module="@ + module_name@ + ", phase="@ + phase@
                + ", details="@ + details@,
    {
        let mut m = String::from_str("Module lifecycle failed: module=");
        m.append(module_name);
        m.append(", phase=");
        m.append(phase);
        m.append(", details=");
        m.append(details);
        Self::new(ErrorKind::ModuleLifecycleFailed, m)
    }

    /// Dynamic provider not found by name.
    pub fn dynamic_provider_not_found(name: &str) -> (res: Self)
        ensures
            res.kind == ErrorKind::DynamicProviderNotFound,
            res.message@ == "No dynamic provider registered with name: "@ + name@
                + ". Register it with provide_dynamic/try_provide_dynamic."@,
    {
        let mut m = String::from_str("No dynamic provider registered with name: ");
        m.append(name);
        m.append(". Register it with provide_dynamic/try_provide_dynamic.");
        Self::new(ErrorKind::DynamicProviderNotFound, m)
    }

    /// One provider failed during eager resolution.
    pub fn eager_resolution_failed(provider: &str, source: &Error) -> (res: Self)
        ensures
            res.kind == ErrorKind::EagerResolutionFailed,
            res.message@ == "Eager resolution failed for provider "@ + provider@ + ": "@ + source.message@,
    {
        let mut m = String::from_str("Eager resolution failed for provider ");
        m.append(provider);
        m.append(": ");
        m.append(source.message.as_str());
        Self::new(ErrorKind::EagerResolutionFailed, m)
    }

    /// Dependency graph validation failed.
    pub fn graph_validation_failed(details: &str) -> (res: Self)
        ensures
            res.kind == ErrorKind::GraphValidationFailed,
            res.message@ == "Dependency graph validation failed: "@ + details@
                + ". Check dependency_graph()/validate_graph() output for details."@,
    {
        let mut m = String::from_str("Dependency graph validation failed: ");
        m.append(details);
        m.append(". Check dependency_graph()/validate_graph() output for details.");
        Self::new(ErrorKind::GraphValidationFailed, m)
    }

    /// Bootstrap failed with several module errors (aggregated).
    ///
    /// A single error is passed through unchanged.
    pub fn bootstrap_aggregate(errors: Vec<Error>) -> (res: Self)
        ensures
            errors.len() == 1 ==> res == errors@[0],
            errors.len() != 1 ==> res.kind == ErrorKind::ModuleLifecycleFailed
                && res.message@ == aggregate_message("Bootstrap failed: "@, errors@),
    {
        aggregate("Bootstrap failed: ", errors)
    }

    /// Shutdown failed with several module errors (aggregated).
    ///
    /// A single error is passed through unchanged.
    pub fn shutdown_aggregate(errors: Vec<Error>) -> (res: Self)
        ensures
            errors.len() == 1 ==> res == errors@[0],
            errors.len() != 1 ==> res.kind == ErrorKind::ModuleLifecycleFailed
                && res.message@ == aggregate_message("Shutdown failed: "@, errors@),
    {
        aggregate("Shutdown failed: ", errors)
    }
}

fn aggregate(headline: &str, errors: Vec<Error>) -> (res: Error)
    ensures
        errors.len() == 1 ==> res == errors@[0],
        errors.len() != 1 ==> res.kind == ErrorKind::ModuleLifecycleFailed
            && res.message@ == aggregate_message(headline@, errors@),
{
    let mut errors = errors;
    if errors.len() == 1 {
        return errors.pop().unwrap();
    }
    let ghost msgs = messages_of(errors@);
    let ghost lines = numbered_lines(msgs);
    let mut body = String::new();
    let mut i: usize = 0;
    while i < errors.len()
        invariant
            msgs == messages_of(errors@),
            lines == numbered_lines(msgs),
            i <= errors.len(),
            body@ == join(lines.subrange(0, i as int), "\n"@),
        decreases errors.len() - i,
    {
        assert(lines.subrange(0, i + 1).drop_last() =~= lines.subrange(0, i as int));
        if i > 0 {
            body.append("\n");
        } else {
            assert(body@ =~= seq![]);
        }
        let number = decimal_string(i + 1);
        body.append("  ");
        body.append(number.as_str());
        body.append(") ");
        body.append(errors[i].message.as_str());
        assert(lines[i as int] =~= "  "@ + decimal((i + 1) as nat) + ") "@ + msgs[i as int]);
        i = i + 1;
    }
    assert(lines.subrange(0, i as int) =~= lines);
    let mut m = String::from_str(headline);
    let count = decimal_string(errors.len());
    m.append(count.as_str());
    m.append(" module(s) reported errors:\n");
    m.append(body.as_str());
    Error::new(ErrorKind::ModuleLifecycleFailed, m)
}

} // verus!
