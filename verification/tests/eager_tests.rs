use std::any::TypeId;

use fluxdi::deps::{DepEntry, NodeDeps, transitive_closure};
use fluxdi::eager::{build_eager_graph, plan_eager_roots, scheduled, wave_failure};
use fluxdi::meta::GraphBuildState;
use fluxdi::provider::Provider;
use fluxdi::registry::DynamicDependency;
use fluxdi::waves::topological_waves;
use fluxdi::{Error, ErrorKind, Scope};

fn single(st: &mut GraphBuildState, provider: Provider, type_id: TypeId, label: &'static str) {
    st.register_single(provider.graph_meta(type_id, label)).unwrap();
}

fn strings(v: &[&str]) -> Vec<String> {
    v.iter().map(|s| s.to_string()).collect()
}

fn keys(g: &NodeDeps) -> Vec<String> {
    let mut k: Vec<String> = g.entries.iter().map(|e| e.node.clone()).collect();
    k.sort();
    k
}

fn map(entries: &[(&str, &[&str])]) -> NodeDeps {
    NodeDeps {
        entries: entries
            .iter()
            .map(|(n, d)| DepEntry { node: n.to_string(), deps: strings(d) })
            .collect(),
    }
}

fn wave_of(waves: &Vec<Vec<String>>, id: &str) -> usize {
    waves.iter().position(|w| w.iter().any(|n| n == id)).unwrap()
}

#[test]
fn waves_put_dependencies_first() {
    let mut st = GraphBuildState::new();
    single(&mut st, Provider::new(Scope::Root), TypeId::of::<u32>(), "u32");
    single(&mut st, Provider::new(Scope::Root), TypeId::of::<u64>(), "u64");
    single(
        &mut st,
        Provider::new(Scope::Root)
            .with_dependency(TypeId::of::<u32>(), "u32")
            .with_dependency(TypeId::of::<u64>(), "u64"),
        TypeId::of::<String>(),
        "alloc::string::String",
    );
    let waves = topological_waves(&build_eager_graph(&st)).unwrap();
    assert_eq!(waves, vec![strings(&["single::u32", "single::u64"]), strings(&["single::alloc::string::String"])]);
    let c = wave_of(&waves, "single::alloc::string::String");
    assert!(c > wave_of(&waves, "single::u32"));
    assert!(c > wave_of(&waves, "single::u64"));
}

#[test]
fn failed_wave_error_names_the_failure() {
    let failing = Error::new(ErrorKind::ModuleLifecycleFailed, "intentional failure".to_string());
    let result = wave_failure(0, &vec![failing]);
    assert!(result.is_some(), "Should fail due to failing dynamic provider");
    let e = result.unwrap();
    assert_eq!(e.kind, ErrorKind::EagerResolutionFailed);
    assert!(e.message.contains("intentional failure"), "Error should contain the failure reason");
    assert_eq!(e.message, "Eager resolution wave 0 failed: intentional failure");
}

#[test]
fn wave_failure_lists_every_error() {
    let errors = vec![
        Error::new(ErrorKind::TypeMismatch, "a".to_string()),
        Error::new(ErrorKind::TypeMismatch, "b".to_string()),
    ];
    assert_eq!(wave_failure(12, &errors).unwrap().message, "Eager resolution wave 12 failed: a; b");
    assert!(wave_failure(3, &vec![]).is_none());
}

#[test]
fn empty_state_has_no_waves() {
    let st = GraphBuildState::new();
    let graph = build_eager_graph(&st);
    assert_eq!(graph.entries.len(), 0);
    assert_eq!(topological_waves(&graph).unwrap().len(), 0);
}

#[test]
fn eager_waves_include_dynamic_providers() {
    let mut st = GraphBuildState::new();
    single(&mut st, Provider::new(Scope::Root), TypeId::of::<u32>(), "u32");
    let deps = vec![DynamicDependency::Static { type_id: TypeId::of::<u32>(), type_label: "u32" }];
    st.register_dynamic("doubled".to_string(), Scope::Module, &deps).unwrap();
    let waves = topological_waves(&build_eager_graph(&st)).unwrap();
    assert_eq!(waves, vec![strings(&["single::u32"]), strings(&["dynamic::doubled"])]);
}

#[test]
fn scoped_plan_holds_root_and_dependency_only() {
    let mut st = GraphBuildState::new();
    single(&mut st, Provider::new(Scope::Root), TypeId::of::<u32>(), "u32");
    single(
        &mut st,
        Provider::new(Scope::Root).with_dependency(TypeId::of::<u32>(), "u32"),
        TypeId::of::<String>(),
        "alloc::string::String",
    );
    single(&mut st, Provider::new(Scope::Root), TypeId::of::<bool>(), "bool");
    let plan = plan_eager_roots(&st, &[TypeId::of::<String>()]).unwrap();
    assert_eq!(keys(&plan), strings(&["single::alloc::string::String", "single::u32"]));
    let waves = topological_waves(&plan).unwrap();
    assert_eq!(waves, vec![strings(&["single::u32"]), strings(&["single::alloc::string::String"])]);
}

#[test]
fn scoped_plan_orders_transitive_chain() {
    let mut st = GraphBuildState::new();
    single(&mut st, Provider::new(Scope::Root), TypeId::of::<u8>(), "u8");
    single(&mut st, Provider::new(Scope::Root).with_dependency(TypeId::of::<u8>(), "u8"), TypeId::of::<u16>(), "u16");
    single(&mut st, Provider::new(Scope::Root).with_dependency(TypeId::of::<u16>(), "u16"), TypeId::of::<u32>(), "u32");
    let plan = plan_eager_roots(&st, &[TypeId::of::<u32>()]).unwrap();
    let waves = topological_waves(&plan).unwrap();
    let a = wave_of(&waves, "single::u8");
    let b = wave_of(&waves, "single::u16");
    let c = wave_of(&waves, "single::u32");
    assert!(a < b, "u8 ({}) should resolve before u16 ({})", a, b);
    assert!(b < c, "u16 ({}) should resolve before u32 ({})", b, c);
}

#[test]
fn scoped_plan_shares_dependency_of_roots() {
    let mut st = GraphBuildState::new();
    single(&mut st, Provider::new(Scope::Root), TypeId::of::<u32>(), "u32");
    single(
        &mut st,
        Provider::new(Scope::Root).with_dependency(TypeId::of::<u32>(), "u32"),
        TypeId::of::<String>(),
        "alloc::string::String",
    );
    single(&mut st, Provider::new(Scope::Root).with_dependency(TypeId::of::<u32>(), "u32"), TypeId::of::<bool>(), "bool");
    single(&mut st, Provider::new(Scope::Root), TypeId::of::<u64>(), "u64");
    let plan = plan_eager_roots(&st, &[TypeId::of::<String>(), TypeId::of::<bool>()]).unwrap();
    assert_eq!(keys(&plan), strings(&["single::alloc::string::String", "single::bool", "single::u32"]));
    let waves = topological_waves(&plan).unwrap();
    assert_eq!(waves, vec![strings(&["single::u32"]), strings(&["single::alloc::string::String", "single::bool"])]);
    let all: Vec<&String> = waves.iter().flatten().collect();
    assert_eq!(all.iter().filter(|n| n.as_str() == "single::u32").count(), 1);
}

#[test]
fn scoped_plan_leaves_out_unrelated_providers() {
    let mut st = GraphBuildState::new();
    single(&mut st, Provider::new(Scope::Root), TypeId::of::<u32>(), "u32");
    single(&mut st, Provider::new(Scope::Root), TypeId::of::<String>(), "alloc::string::String");
    let plan = plan_eager_roots(&st, &[TypeId::of::<u32>()]).unwrap();
    assert_eq!(keys(&plan), strings(&["single::u32"]));
}

#[test]
fn scoped_plan_without_bound_roots_is_none() {
    let mut st = GraphBuildState::new();
    single(&mut st, Provider::new(Scope::Root), TypeId::of::<u32>(), "u32");
    assert!(plan_eager_roots(&st, &[]).is_none());
    assert!(plan_eager_roots(&st, &[TypeId::of::<u64>()]).is_none());
}

#[test]
fn eager_graph_includes_transient_providers() {
    let mut st = GraphBuildState::new();
    single(&mut st, Provider::new(Scope::Transient), TypeId::of::<u32>(), "u32");
    let waves = topological_waves(&build_eager_graph(&st)).unwrap();
    assert_eq!(waves, vec![strings(&["single::u32"])]);
}

#[test]
fn eager_cycle_is_refused() {
    let g = map(&[("a", &["b"]), ("b", &["c"]), ("c", &["a"]), ("d", &[])]);
    let e = topological_waves(&g).unwrap_err();
    assert_eq!(e.kind, ErrorKind::GraphValidationFailed);
    assert_eq!(
        e.message,
        "Dependency graph validation failed: circular dependency detected during eager resolution. Check dependency_graph()/validate_graph() output for details."
    );
}

#[test]
fn unknown_dependencies_do_not_hold_back_a_wave() {
    let g = map(&[("b", &["missing", "a"]), ("a", &["missing"])]);
    let waves = topological_waves(&g).unwrap();
    assert_eq!(waves, vec![strings(&["a"]), strings(&["b"])]);
}

#[test]
fn waves_are_sorted_and_place_each_node_once() {
    let g = map(&[("z", &[]), ("m", &["z"]), ("a", &[]), ("k", &["a", "z"]), ("b", &["k", "m"])]);
    let waves = topological_waves(&g).unwrap();
    assert_eq!(waves, vec![strings(&["a", "z"]), strings(&["k", "m"]), strings(&["b"])]);
}

#[test]
fn closure_follows_known_dependencies() {
    let g = map(&[("a", &["b", "zzz"]), ("b", &["c"]), ("c", &["a"]), ("x", &["a"])]);
    let mut reached = transitive_closure(&strings(&["a", "root-without-entry"]), &g);
    reached.sort();
    assert_eq!(reached, strings(&["a", "b", "c", "root-without-entry"]));
}

#[test]
fn scheduled_keeps_nodes_with_resolvers_in_order() {
    let wave = strings(&["a", "b", "c", "d"]);
    let resolvers = strings(&["d", "b", "x"]);
    assert_eq!(scheduled(&wave, &resolvers), strings(&["b", "d"]));
}

#[test]
fn named_and_dynamic_nodes_in_eager_graph() {
    let mut st = GraphBuildState::new();
    single(
        &mut st,
        Provider::new(Scope::Root)
            .with_dynamic_dependency("cfg".to_string())
            .with_set_dependency(TypeId::of::<u8>(), "u8"),
        TypeId::of::<u32>(),
        "u32",
    );
    st.register_dynamic("cfg".to_string(), Scope::Module, &vec![]).unwrap();
    st.register_set_member(Provider::new(Scope::Root).graph_meta(TypeId::of::<u8>(), "u8"));
    let g = build_eager_graph(&st);
    assert_eq!(keys(&g), strings(&["dynamic::cfg", "single::u32"]));
    let u = g.entries.iter().find(|e| e.node == "single::u32").unwrap();
    assert_eq!(u.deps, strings(&["dynamic::cfg"]));
}
