use std::any::TypeId;

use fluxdi::caching::cache_target;
use fluxdi::cycles::detect_cycles;
use fluxdi::deps::{DepEntry, NodeDeps};
use fluxdi::graph::{DependencyCardinality, GraphValidationIssueKind, GraphValidationReport};
use fluxdi::meta::{DependencyHint, NamedTypeKey, ProviderGraphMeta};
use fluxdi::order::{chars_equal, chars_less, key_less, sort_indices};
use fluxdi::provider::Provider;
use fluxdi::registry::{DynamicDependency, dynamic_hints};
use fluxdi::resolve_guard::{ResolveGuard, ResolveSet};
use fluxdi::text::{chars_of, contains_string, decimal_string, join_strings, join_strs};
use fluxdi::{Error, ErrorKind, Scope};

fn chars(s: &str) -> Vec<char> {
    s.chars().collect()
}

#[test]
fn dynamic_provider_not_found_error_text() {
    let e = Error::dynamic_provider_not_found("missing");
    assert_eq!(e.kind, ErrorKind::DynamicProviderNotFound);
    assert_eq!(
        e.message,
        "No dynamic provider registered with name: missing. Register it with provide_dynamic/try_provide_dynamic."
    );
}

#[test]
fn error_messages() {
    let e = Error::service_not_provided("Db");
    assert_eq!(e.kind, ErrorKind::ServiceNotProvided);
    assert_eq!(
        e.message,
        "No provider registered for type: Db. Register it in Module::configure(...) with injector.provide::<T>(Provider::...)."
    );
    assert_eq!(
        Error::service_not_provided_named("Db", "primary").message,
        "No provider registered for type: Db with name: primary. Register it with provide_named/try_provide_named."
    );
    assert_eq!(
        Error::service_not_provided_for_override("Db").message,
        "Cannot override provider for type: Db because no provider is registered. Register one first with provide/try_provide."
    );
    let e = Error::type_mismatch("Db");
    assert_eq!(e.kind, ErrorKind::TypeMismatch);
    assert_eq!(e.message, "Type mismatch when resolving: Db");
    assert_eq!(
        Error::provider_already_registered("Db", "root").message,
        "Provider (root scope) already registered for type: Db. Use override_provider/try_override_provider to replace it."
    );
    assert_eq!(
        Error::provider_already_registered_named("Db", "primary", "module").message,
        "Provider (module scope) already registered for type: Db with name: primary."
    );
    let e = Error::circular_dependency(&["A", "B", "A"]);
    assert_eq!(e.kind, ErrorKind::CircularDependency);
    assert_eq!(
        e.message,
        "Circular dependency detected: A -> B -> A. Break the cycle by introducing a trait boundary, lazy lookup, or refactoring the dependency direction."
    );
    let e = Error::async_factory_requires_async_resolve("Db");
    assert_eq!(e.kind, ErrorKind::AsyncFactoryRequiresAsyncResolve);
    assert_eq!(e.message, "Type Db is registered with an async provider; use try_resolve_async/resolve_async");
    let e = Error::resource_limit_exceeded("Db", "max 2");
    assert_eq!(e.kind, ErrorKind::ResourceLimitExceeded);
    assert_eq!(e.message, "Resource limit exceeded while creating type Db: max 2");
    let e = Error::module_lifecycle_failed("net", "start", "boom");
    assert_eq!(e.kind, ErrorKind::ModuleLifecycleFailed);
    assert_eq!(e.message, "Module lifecycle failed: module=net, phase=start, details=boom");
    let e = Error::eager_resolution_failed("single::u32", &Error::type_mismatch("u32"));
    assert_eq!(e.kind, ErrorKind::EagerResolutionFailed);
    assert_eq!(e.message, "Eager resolution failed for provider single::u32: Type mismatch when resolving: u32");
    let e = Error::graph_validation_failed("x");
    assert_eq!(e.kind, ErrorKind::GraphValidationFailed);
    assert_eq!(
        e.message,
        "Dependency graph validation failed: x. Check dependency_graph()/validate_graph() output for details."
    );
    assert_eq!(Error::new(ErrorKind::TypeMismatch, "m".to_string()).to_string(), "m");
}

#[test]
fn aggregate_errors() {
    let one = Error::type_mismatch("A");
    let e = Error::bootstrap_aggregate(vec![one.clone()]);
    assert_eq!(e.kind, ErrorKind::TypeMismatch);
    assert_eq!(e.message, one.message);
    let e = Error::bootstrap_aggregate(vec![
        Error::new(ErrorKind::TypeMismatch, "first".to_string()),
        Error::new(ErrorKind::TypeMismatch, "second".to_string()),
    ]);
    assert_eq!(e.kind, ErrorKind::ModuleLifecycleFailed);
    assert_eq!(e.message, "Bootstrap failed: 2 module(s) reported errors:\n  1) first\n  2) second");
    let e = Error::shutdown_aggregate(vec![]);
    assert_eq!(e.kind, ErrorKind::ModuleLifecycleFailed);
    assert_eq!(e.message, "Shutdown failed: 0 module(s) reported errors:\n");
    let many: Vec<Error> = (0..11).map(|i| Error::new(ErrorKind::TypeMismatch, format!("e{}", i))).collect();
    let e = Error::shutdown_aggregate(many);
    assert!(e.message.starts_with("Shutdown failed: 11 module(s) reported errors:\n  1) e0\n"));
    assert!(e.message.ends_with("\n  11) e10"));
}

#[test]
fn scope_text() {
    assert_eq!(Scope::Root.as_str(), "root");
    assert_eq!(Scope::Module.as_str(), "module");
    assert_eq!(Scope::Scoped.as_str(), "scoped");
    assert_eq!(Scope::Transient.as_str(), "transient");
}

#[test]
fn decimal_and_join() {
    assert_eq!(decimal_string(0), "0");
    assert_eq!(decimal_string(7), "7");
    assert_eq!(decimal_string(120), "120");
    assert_eq!(decimal_string(18446744073709551615), "18446744073709551615");
    assert_eq!(join_strs(&["a", "b", "c"], " -> "), "a -> b -> c");
    assert_eq!(join_strs(&[], ", "), "");
    assert_eq!(join_strings(&vec!["x".to_string()], "; "), "x");
    assert_eq!(chars_of("héllo"), chars("héllo"));
    assert!(contains_string(&vec!["a".to_string(), "b".to_string()], &"b".to_string()));
    assert!(!contains_string(&vec!["a".to_string()], &"c".to_string()));
}

#[test]
fn lexicographic_order() {
    assert!(chars_less(&chars("abc"), &chars("abd")));
    assert!(chars_less(&chars("ab"), &chars("abc")));
    assert!(!chars_less(&chars("abc"), &chars("abc")));
    assert!(!chars_less(&chars("b"), &chars("abc")));
    assert!(chars_less(&chars("Z"), &chars("a")));
    assert!(chars_equal(&chars("abc"), &chars("abc")));
    assert!(!chars_equal(&chars("abc"), &chars("ab")));
    assert!(key_less(&vec![chars("a"), chars("z")], &vec![chars("b"), chars("a")]));
    assert!(key_less(&vec![chars("a"), chars("a")], &vec![chars("a"), chars("b")]));
    assert!(!key_less(&vec![chars("a"), chars("b")], &vec![chars("a"), chars("b")]));
}

#[test]
fn stable_sort_keeps_equal_keys_in_order() {
    let keys = vec![
        vec![chars("b")],
        vec![chars("a")],
        vec![chars("b")],
        vec![chars("a")],
        vec![chars("c")],
    ];
    assert_eq!(sort_indices(&keys), vec![1, 3, 0, 2, 4]);
    assert_eq!(sort_indices(&vec![]), Vec::<usize>::new());
}

#[test]
fn interleaved_guards_release_cleanly() {
    let mut set = ResolveSet::new();
    let a = ResolveGuard::push(&mut set, TypeId::of::<u32>()).unwrap();
    let b = ResolveGuard::push(&mut set, TypeId::of::<u64>()).unwrap();
    a.release(&mut set);
    b.release(&mut set);
    assert!(set.active.is_empty());
    let again = ResolveGuard::push(&mut set, TypeId::of::<u32>()).unwrap();
    again.release(&mut set);
    assert!(set.active.is_empty());
}

#[test]
fn reentrant_resolution_is_refused() {
    let mut set = ResolveSet::new();
    let guard = ResolveGuard::push(&mut set, TypeId::of::<u32>()).unwrap();
    let e = ResolveGuard::push(&mut set, TypeId::of::<u32>()).unwrap_err();
    assert_eq!(e.kind, ErrorKind::CircularDependency);
    assert_eq!(
        e.message,
        format!("Circular dependency detected while resolving type_id: {:?}", TypeId::of::<u32>())
    );
    assert_eq!(set.active.len(), 1);
    guard.release(&mut set);
    assert!(ResolveGuard::push(&mut set, TypeId::of::<u32>()).is_ok());
}

#[test]
fn cycle_search_reports_each_cycle_once() {
    let entry = |n: &str, d: &[&str]| DepEntry { node: n.to_string(), deps: d.iter().map(|s| s.to_string()).collect() };
    let adjacency = NodeDeps { entries: vec![entry("a", &["b"]), entry("b", &["a", "c"]), entry("c", &["c"])] };
    let mut visiting = Vec::new();
    let mut visited = Vec::new();
    let mut stack = Vec::new();
    let mut seen = Vec::new();
    let mut report = GraphValidationReport { issues: vec![] };
    for start in ["a", "b", "c"] {
        detect_cycles(start, &adjacency, &mut visiting, &mut visited, &mut stack, &mut seen, &mut report);
    }
    let messages: Vec<&str> = report.issues.iter().map(|i| i.message.as_str()).collect();
    assert_eq!(
        messages,
        vec![
            "Graph validation failed: circular dependency detected: a -> b -> a",
            "Graph validation failed: circular dependency detected: c -> c",
        ]
    );
    assert_eq!(report.issues[0].node_id, Some("b".to_string()));
    assert!(report.issues.iter().all(|i| i.kind == GraphValidationIssueKind::CircularDependency));
    assert!(stack.is_empty());
    assert_eq!(visited.len(), 3);
}

#[test]
fn acyclic_search_reports_nothing() {
    let entry = |n: &str, d: &[&str]| DepEntry { node: n.to_string(), deps: d.iter().map(|s| s.to_string()).collect() };
    let adjacency = NodeDeps { entries: vec![entry("a", &["b", "c"]), entry("b", &["c"])] };
    let mut visiting = Vec::new();
    let mut visited = Vec::new();
    let mut stack = Vec::new();
    let mut seen = Vec::new();
    let mut report = GraphValidationReport { issues: vec![] };
    detect_cycles("a", &adjacency, &mut visiting, &mut visited, &mut stack, &mut seen, &mut report);
    assert!(report.issues.is_empty());
    let mut v = visited.clone();
    v.sort();
    assert_eq!(v, vec!["a", "b", "c"]);
}

#[test]
fn provider_hints_keep_declaration_order() {
    let p = Provider::new(Scope::Scoped)
        .with_dependency(TypeId::of::<u32>(), "u32")
        .with_named_dependency(TypeId::of::<u64>(), "u64", "n".to_string())
        .with_set_dependency(TypeId::of::<u8>(), "u8")
        .with_dynamic_dependency("dyn".to_string());
    let meta = p.graph_meta(TypeId::of::<String>(), "alloc::string::String");
    assert_eq!(meta.scope, Scope::Scoped);
    assert_eq!(meta.type_label, "alloc::string::String");
    let d = &meta.dependencies;
    assert_eq!(d.len(), 4);
    assert_eq!(d[0].type_label, "u32");
    assert_eq!(d[0].cardinality, DependencyCardinality::One);
    assert_eq!(d[1].name, Some("n".to_string()));
    assert_eq!(d[2].cardinality, DependencyCardinality::All);
    assert!(d[3].is_dynamic);
    assert_eq!(d[3].type_label, "<dynamic>");
    assert_eq!(d[3].name, Some("dyn".to_string()));
}

#[test]
fn hints_and_keys() {
    let h = DependencyHint::named(TypeId::of::<u32>(), "u32", "x".to_string());
    assert_eq!(h.copy().name, Some("x".to_string()));
    let h = DependencyHint::all(TypeId::of::<u8>(), "u8");
    assert_eq!(h.cardinality, DependencyCardinality::All);
    assert!(!h.is_dynamic);
    let h = DependencyHint::one(TypeId::of::<u8>(), "u8");
    assert_eq!(h.name, None);
    let k = NamedTypeKey::of(TypeId::of::<u8>(), "primary");
    assert_eq!(k.name, "primary");
    let m = ProviderGraphMeta::of(TypeId::of::<u8>(), "u8", Scope::Module, vec![h]);
    assert_eq!(m.dependencies.len(), 1);
    let hs = dynamic_hints(&vec![
        DynamicDependency::Named("a".to_string()),
        DynamicDependency::Static { type_id: TypeId::of::<u8>(), type_label: "u8" },
    ]);
    assert!(hs[0].is_dynamic);
    assert_eq!(hs[0].name, Some("a".to_string()));
    assert!(!hs[1].is_dynamic);
    assert_eq!(hs[1].type_id, TypeId::of::<u8>());
}

#[test]
fn cloned_metadata_keeps_its_type() {
    let m = Provider::new(Scope::Module)
        .with_dependency(TypeId::of::<u64>(), "u64")
        .graph_meta(TypeId::of::<u32>(), "u32");
    let c = m.clone();
    assert_eq!(c.type_id, TypeId::of::<u32>());
    assert_eq!(c.dependencies[0].type_id, TypeId::of::<u64>());
    assert_eq!(c.scope, Scope::Module);
}

#[test]
fn module_scope_caches_in_resolving_injector() {
    // Module-scoped (the default of dynamic providers): cached in the resolving injector.
    assert_eq!(cache_target(Scope::Module, &vec![false]), Some(0));
    assert_eq!(cache_target(Scope::Module, &vec![true, false, false]), Some(0));
}

#[test]
fn transient_scope_is_never_cached() {
    assert_eq!(cache_target(Scope::Transient, &vec![false]), None);
    assert_eq!(cache_target(Scope::Transient, &vec![true, false]), None);
}

#[test]
fn root_scope_caches_in_root() {
    // Root-scoped instances are cached in the root, the last injector of the chain.
    assert_eq!(cache_target(Scope::Root, &vec![false]), Some(0));
    assert_eq!(cache_target(Scope::Root, &vec![false, true, false]), Some(2));
}

#[test]
fn scoped_instances_live_in_the_nearest_scope() {
    assert_eq!(cache_target(Scope::Scoped, &vec![false, true, false, true]), Some(1));
    assert_eq!(cache_target(Scope::Scoped, &vec![true, false]), Some(0));
    assert_eq!(cache_target(Scope::Scoped, &vec![false, false]), Some(0));
}
