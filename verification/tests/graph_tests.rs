use std::any::TypeId;

use fluxdi::graph::{
    DependencyCardinality, DependencyGraph, GraphBinding, GraphEdge, GraphNode, GraphValidationIssue,
    GraphValidationIssueKind, GraphValidationReport,
};
use fluxdi::graph_build::{build_dependency_graph_and_report, dependency_graph, dependency_label, try_validate_graph, validate_graph};
use fluxdi::meta::{GraphBuildState, NamedBinding, NamedTypeKey};
use fluxdi::provider::Provider;
use fluxdi::registry::DynamicDependency;
use fluxdi::{ErrorKind, Scope};

fn single(st: &mut GraphBuildState, provider: Provider, type_id: TypeId, label: &'static str) {
    st.register_single(provider.graph_meta(type_id, label)).unwrap();
}

#[test]
fn static_depends_on_dynamic() {
    let mut st = GraphBuildState::new();
    st.register_dynamic("config".to_string(), Scope::Module, &vec![]).unwrap();
    single(
        &mut st,
        Provider::new(Scope::Root).with_dynamic_dependency("config".to_string()),
        TypeId::of::<String>(),
        "alloc::string::String",
    );
    let report = validate_graph(&st);
    assert!(report.is_valid(), "Graph should be valid: {}", report.summary());
}

#[test]
fn dynamic_depends_on_static() {
    let mut st = GraphBuildState::new();
    single(&mut st, Provider::new(Scope::Root), TypeId::of::<String>(), "alloc::string::String");
    let deps = vec![DynamicDependency::Static { type_id: TypeId::of::<String>(), type_label: "alloc::string::String" }];
    st.register_dynamic("db_view".to_string(), Scope::Module, &deps).unwrap();
    let report = validate_graph(&st);
    assert!(report.is_valid(), "Graph should be valid: {}", report.summary());
}

#[test]
fn dynamic_depends_on_dynamic() {
    let mut st = GraphBuildState::new();
    st.register_dynamic("base".to_string(), Scope::Module, &vec![]).unwrap();
    st.register_dynamic("derived".to_string(), Scope::Module, &vec![DynamicDependency::Named("base".to_string())])
        .unwrap();
    let report = validate_graph(&st);
    assert!(report.is_valid(), "Graph should be valid: {}", report.summary());
    let graph = dependency_graph(&st);
    assert_eq!(graph.edges.len(), 1);
    assert_eq!(graph.edges[0].from, "dynamic::derived");
    assert_eq!(graph.edges[0].to, "dynamic::base");
    assert_eq!(graph.edges[0].label, Some("one:base".to_string()));
}

#[test]
fn mixed_cycle_detection() {
    let mut st = GraphBuildState::new();
    single(
        &mut st,
        Provider::new(Scope::Root).with_dynamic_dependency("B".to_string()),
        TypeId::of::<u32>(),
        "u32",
    );
    let deps = vec![DynamicDependency::Static { type_id: TypeId::of::<u32>(), type_label: "u32" }];
    st.register_dynamic("B".to_string(), Scope::Module, &deps).unwrap();
    let report = validate_graph(&st);
    assert!(!report.is_valid(), "Cycle should be detected");
    assert!(report.summary().contains("circular"), "Should mention circular: {}", report.summary());
}

#[test]
fn mixed_cycle_reported_once_with_its_path() {
    let mut st = GraphBuildState::new();
    single(
        &mut st,
        Provider::new(Scope::Root).with_dynamic_dependency("B".to_string()),
        TypeId::of::<u32>(),
        "u32",
    );
    let deps = vec![DynamicDependency::Static { type_id: TypeId::of::<u32>(), type_label: "u32" }];
    st.register_dynamic("B".to_string(), Scope::Module, &deps).unwrap();
    let report = validate_graph(&st);
    assert_eq!(report.issues.len(), 1);
    assert_eq!(report.issues[0].kind, GraphValidationIssueKind::CircularDependency);
    assert_eq!(report.issues[0].node_id, Some("single::u32".to_string()));
    assert_eq!(
        report.issues[0].message,
        "Graph validation failed: circular dependency detected: dynamic::B -> single::u32 -> dynamic::B"
    );
}

#[test]
fn graph_visualization_includes_dynamic() {
    let mut st = GraphBuildState::new();
    single(&mut st, Provider::new(Scope::Root), TypeId::of::<String>(), "alloc::string::String");
    let deps = vec![DynamicDependency::Static { type_id: TypeId::of::<String>(), type_label: "alloc::string::String" }];
    st.register_dynamic("my_view".to_string(), Scope::Module, &deps).unwrap();
    let graph = dependency_graph(&st);
    let dot = graph.to_dot();
    let mermaid = graph.to_mermaid();
    assert!(dot.contains("my_view"), "DOT should contain dynamic node: {}", dot);
    assert!(dot.contains("dynamic:my_view"), "DOT should contain dynamic binding label: {}", dot);
    assert!(mermaid.contains("my_view"), "Mermaid should contain dynamic node: {}", mermaid);
}

#[test]
fn duplicate_dynamic_provider_rejected() {
    let mut st = GraphBuildState::new();
    st.register_dynamic("dup".to_string(), Scope::Module, &vec![]).unwrap();
    let result = st.register_dynamic("dup".to_string(), Scope::Module, &vec![]);
    assert!(result.is_err());
    let e = result.unwrap_err();
    assert_eq!(e.kind, ErrorKind::ProviderAlreadyRegistered);
    assert_eq!(
        e.message,
        "Provider (module scope) already registered for type: dup. Use override_provider/try_override_provider to replace it."
    );
    assert_eq!(st.dynamics.len(), 1);
}

#[test]
fn duplicate_single_provider_rejected_and_state_kept() {
    let mut st = GraphBuildState::new();
    single(&mut st, Provider::new(Scope::Root), TypeId::of::<u32>(), "u32");
    let again = Provider::new(Scope::Transient).graph_meta(TypeId::of::<u32>(), "u32");
    let e = st.register_single(again).unwrap_err();
    assert_eq!(e.kind, ErrorKind::ProviderAlreadyRegistered);
    assert_eq!(
        e.message,
        "Provider (transient scope) already registered for type: u32. Use override_provider/try_override_provider to replace it."
    );
    assert_eq!(st.singles.len(), 1);
    assert_eq!(st.singles[0].scope, Scope::Root);
}

#[test]
fn dot_output_is_exact() {
    let mut st = GraphBuildState::new();
    single(&mut st, Provider::new(Scope::Root), TypeId::of::<u32>(), "u32");
    single(
        &mut st,
        Provider::new(Scope::Root).with_dependency(TypeId::of::<u32>(), "u32"),
        TypeId::of::<String>(),
        "alloc::string::String",
    );
    let dot = dependency_graph(&st).to_dot();
    assert_eq!(
        dot,
        "digraph fluxdi {\n  rankdir=LR;\n  \"single::alloc::string::String\" [label=\"alloc::string::String [root | single]\"];\n  \"single::u32\" [label=\"u32 [root | single]\"];\n  \"single::alloc::string::String\" -> \"single::u32\" [label=\"one\"];\n}\n"
    );
}

#[test]
fn mermaid_output_is_exact() {
    let mut st = GraphBuildState::new();
    single(&mut st, Provider::new(Scope::Root), TypeId::of::<u32>(), "u32");
    single(
        &mut st,
        Provider::new(Scope::Module).with_dependency(TypeId::of::<u32>(), "u32"),
        TypeId::of::<String>(),
        "alloc::string::String",
    );
    let mermaid = dependency_graph(&st).to_mermaid();
    assert_eq!(
        mermaid,
        "graph TD\n  n0_single__alloc__string__String[\"alloc::string::String [module | single]\"]\n  n1_single__u32[\"u32 [root | single]\"]\n  n0_single__alloc__string__String -->|one| n1_single__u32\n"
    );
}

#[test]
fn dot_escapes_quotes_and_backslashes() {
    let graph = DependencyGraph {
        nodes: vec![],
        edges: vec![GraphEdge { from: "a\"b".to_string(), to: "c\\d".to_string(), label: None }],
    };
    assert_eq!(graph.to_dot(), "digraph fluxdi {\n  rankdir=LR;\n  \"a\\\"b\" -> \"c\\\\d\";\n}\n");
    assert_eq!(graph.to_mermaid(), "graph TD\n");
}

#[test]
fn mermaid_empty_id_and_unlabelled_edge() {
    let node = |id: &str| GraphNode {
        id: id.to_string(),
        type_label: "T".to_string(),
        scope: Scope::Scoped,
        binding: GraphBinding::SetEntry(3),
        dependencies: vec![],
    };
    let graph = DependencyGraph {
        nodes: vec![node(""), node("x-y")],
        edges: vec![GraphEdge { from: "".to_string(), to: "x-y".to_string(), label: None }],
    };
    assert_eq!(
        graph.to_mermaid(),
        "graph TD\n  n0_node[\"T [scoped | set:3]\"]\n  n1_x_y[\"T [scoped | set:3]\"]\n  n0_node --> n1_x_y\n"
    );
}

#[test]
fn binding_labels() {
    assert_eq!(GraphBinding::Single.as_label(), "single");
    assert_eq!(GraphBinding::Named("db".to_string()).as_label(), "named:db");
    assert_eq!(GraphBinding::SetEntry(12).as_label(), "set:12");
    assert_eq!(GraphBinding::Dynamic("v".to_string()).as_label(), "dynamic:v");
}

#[test]
fn missing_dependency_is_reported() {
    let mut st = GraphBuildState::new();
    single(
        &mut st,
        Provider::new(Scope::Root)
            .with_dependency(TypeId::of::<u32>(), "u32")
            .with_named_dependency(TypeId::of::<u64>(), "u64", "primary".to_string())
            .with_set_dependency(TypeId::of::<bool>(), "bool"),
        TypeId::of::<String>(),
        "alloc::string::String",
    );
    let report = validate_graph(&st);
    assert_eq!(report.issues.len(), 3);
    for issue in &report.issues {
        assert_eq!(issue.kind, GraphValidationIssueKind::MissingDependency);
        assert_eq!(issue.node_id, Some("single::alloc::string::String".to_string()));
    }
    assert_eq!(
        report.issues[0].message,
        "Graph validation failed: node single::alloc::string::String depends on missing dependency u32"
    );
    assert_eq!(
        report.issues[1].message,
        "Graph validation failed: node single::alloc::string::String depends on missing named dependency u64 (primary)"
    );
    assert_eq!(
        report.issues[2].message,
        "Graph validation failed: node single::alloc::string::String depends on missing set dependency bool"
    );
    let e = try_validate_graph(&st).unwrap_err();
    assert_eq!(e.kind, ErrorKind::GraphValidationFailed);
    assert_eq!(
        e.message,
        format!(
            "Dependency graph validation failed: {} | {} | {}. Check dependency_graph()/validate_graph() output for details.",
            report.issues[0].message, report.issues[1].message, report.issues[2].message
        )
    );
}

#[test]
fn set_members_and_named_bindings_become_nodes() {
    let mut st = GraphBuildState::new();
    st.register_set_member(Provider::new(Scope::Root).graph_meta(TypeId::of::<u8>(), "u8"));
    st.register_set_member(Provider::new(Scope::Transient).graph_meta(TypeId::of::<u8>(), "u8"));
    single(
        &mut st,
        Provider::new(Scope::Root).with_set_dependency(TypeId::of::<u8>(), "u8"),
        TypeId::of::<u32>(),
        "u32",
    );
    let graph = dependency_graph(&st);
    let ids: Vec<String> = graph.nodes.iter().map(|n| n.id.clone()).collect();
    assert_eq!(ids, vec!["single::u32", "set::u8::0", "set::u8::1"]);
    assert_eq!(graph.nodes[2].label(), "u8 [transient | set:1]");
    assert_eq!(graph.edges.len(), 2);
    assert_eq!(graph.edges[0].to, "set::u8::0");
    assert_eq!(graph.edges[1].to, "set::u8::1");
    assert_eq!(graph.edges[0].label, Some("all".to_string()));
    assert!(validate_graph(&st).is_valid());
}

#[test]
fn validation_on_valid_graph_is_ok() {
    let mut st = GraphBuildState::new();
    single(&mut st, Provider::new(Scope::Root), TypeId::of::<u32>(), "u32");
    assert!(try_validate_graph(&st).is_ok());
    let (graph, report) = build_dependency_graph_and_report(&st);
    assert_eq!(graph.nodes.len(), 1);
    assert_eq!(graph.nodes[0].id, "single::u32");
    assert!(report.is_valid());
    assert_eq!(report.summary(), "Dependency graph is valid");
}

#[test]
fn summary_joins_issue_messages() {
    let issue = |m: &str| GraphValidationIssue {
        kind: GraphValidationIssueKind::MissingDependency,
        node_id: None,
        message: m.to_string(),
    };
    let report = GraphValidationReport { issues: vec![issue("first"), issue("second")] };
    assert!(!report.is_valid());
    assert_eq!(report.summary(), "first | second");
}

#[test]
fn dependency_labels() {
    assert_eq!(dependency_label(DependencyCardinality::One, Some("x")), Some("one:x".to_string()));
    assert_eq!(dependency_label(DependencyCardinality::One, None), Some("one".to_string()));
    assert_eq!(dependency_label(DependencyCardinality::All, Some("x")), Some("all".to_string()));
}

#[test]
fn nearer_registrations_win_when_merged() {
    let mut parent = GraphBuildState::new();
    single(&mut parent, Provider::new(Scope::Root), TypeId::of::<u32>(), "u32");
    single(&mut parent, Provider::new(Scope::Root), TypeId::of::<u64>(), "u64");
    parent.register_set_member(Provider::new(Scope::Root).graph_meta(TypeId::of::<u8>(), "u8"));
    parent.register_dynamic("d".to_string(), Scope::Root, &vec![]).unwrap();
    let mut child = GraphBuildState::new();
    single(&mut child, Provider::new(Scope::Transient), TypeId::of::<u32>(), "u32");
    child.register_set_member(Provider::new(Scope::Scoped).graph_meta(TypeId::of::<u8>(), "u8"));
    child.register_dynamic("d".to_string(), Scope::Transient, &vec![]).unwrap();
    parent.absorb(child);
    assert_eq!(parent.singles.len(), 2);
    let u32_binding = parent.singles.iter().find(|m| m.type_id == TypeId::of::<u32>()).unwrap();
    assert_eq!(u32_binding.scope, Scope::Transient);
    let u64_binding = parent.singles.iter().find(|m| m.type_id == TypeId::of::<u64>()).unwrap();
    assert_eq!(u64_binding.scope, Scope::Root);
    assert_eq!(parent.sets.len(), 1);
    assert_eq!(parent.sets[0].metas.len(), 2);
    assert_eq!(parent.sets[0].metas[0].scope, Scope::Root);
    assert_eq!(parent.sets[0].metas[1].scope, Scope::Scoped);
    assert_eq!(parent.dynamics.len(), 1);
    assert_eq!(parent.dynamics[0].scope, Scope::Transient);
}

#[test]
fn named_bindings_satisfy_named_dependencies() {
    let mut st = GraphBuildState::new();
    st.named.push(NamedBinding {
        key: NamedTypeKey::of(TypeId::of::<u32>(), "primary"),
        meta: Provider::new(Scope::Module).graph_meta(TypeId::of::<u32>(), "u32"),
    });
    single(
        &mut st,
        Provider::new(Scope::Root).with_named_dependency(TypeId::of::<u32>(), "u32", "primary".to_string()),
        TypeId::of::<String>(),
        "alloc::string::String",
    );
    let graph = dependency_graph(&st);
    let ids: Vec<String> = graph.nodes.iter().map(|n| n.id.clone()).collect();
    assert_eq!(ids, vec!["single::alloc::string::String", "named::u32::primary"]);
    assert_eq!(graph.nodes[1].label(), "u32 [module | named:primary]");
    assert_eq!(graph.edges.len(), 1);
    assert_eq!(graph.edges[0].to, "named::u32::primary");
    assert_eq!(graph.edges[0].label, Some("one:primary".to_string()));
    assert!(validate_graph(&st).is_valid());
}

#[test]
fn child_without_registrations_has_parent_graph() {
    let mut parent = GraphBuildState::new();
    single(&mut parent, Provider::new(Scope::Root), TypeId::of::<u32>(), "u32");
    single(
        &mut parent,
        Provider::new(Scope::Root).with_dependency(TypeId::of::<u32>(), "u32"),
        TypeId::of::<String>(),
        "alloc::string::String",
    );
    parent.register_dynamic("d".to_string(), Scope::Module, &vec![]).unwrap();
    let before = dependency_graph(&parent);
    let mut merged = parent.clone();
    merged.absorb(GraphBuildState::new());
    assert_eq!(dependency_graph(&merged), before);
    assert_eq!(validate_graph(&merged), validate_graph(&parent));
}
