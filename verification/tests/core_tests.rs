use apex::graph::{empty_graph, Graph};
use apex::layout::layout;
use apex::model::{EdgeKind, Node, NodeKind};
use apex::plugin::validate_export;
use apex::rules::{check, check_graph};

fn node(id: &str, name: &str, kind: NodeKind, path: &str, layer: Option<&str>) -> Node {
    Node {
        id: id.into(),
        name: name.into(),
        kind,
        path: path.into(),
        layer: layer.map(|l| l.to_string()),
    }
}

#[test]
fn test_focus_one_hop_returns_neighbourhood() {
    let mut graph = Graph::new();
    graph.upsert_node(node("a", "A", NodeKind::Type, "a.ts", None));
    graph.upsert_node(node("b", "B", NodeKind::Type, "b.ts", None));
    graph.upsert_node(node("c", "C", NodeKind::Type, "c.ts", None));
    graph.add_edge("a", "b", EdgeKind::Imports);
    graph.add_edge("b", "c", EdgeKind::Imports);

    let focused = graph.focus("a", 1);

    assert!(focused.nodes.contains_key("a"));
    assert!(focused.nodes.contains_key("b"));
    assert!(!focused.nodes.contains_key("c"));
}

#[test]
fn test_check_graph_detects_layer_violation() {
    let mut graph = Graph::new();
    graph.upsert_node(node(
        "file:api/TokenValidator.ts",
        "TokenValidator.ts",
        NodeKind::File,
        "api/TokenValidator.ts",
        Some("api"),
    ));
    graph.upsert_node(node(
        "type:CacheStore",
        "CacheStore",
        NodeKind::Type,
        "infrastructure/CacheStore.ts",
        Some("infrastructure"),
    ));
    graph.add_edge("file:api/TokenValidator.ts", "type:CacheStore", EdgeKind::Imports);

    let violations = check_graph(&graph);

    assert_eq!(violations[0].rule_id, "RULE-LAYER-001");
}

#[test]
fn test_mermaid_output_contains_class_diagram() {
    let mut graph = Graph::new();
    graph.upsert_node(node("type:User", "User", NodeKind::Entity, "schema.prisma", None));

    let output = graph.to_mermaid();

    assert!(output.contains("classDiagram"));
    assert!(output.contains("class User"));
}

#[test]
fn test_empty_graph_has_no_nodes() {
    assert!(empty_graph().nodes.is_empty());
}

#[test]
fn test_layout_empty_graph_is_empty() {
    assert!(layout(&Graph::new()).is_empty());
}

#[test]
fn test_validate_export_accepts_required_entrypoint() {
    assert!(validate_export("apex_parse"));
    assert!(!validate_export("malloc"));
}

#[test]
fn test_empty_graph_has_no_violations() {
    assert!(check(&Graph::new()).is_empty());
}

#[test]
fn to_json_exact_for_small_graph() {
    let mut graph = Graph::new();
    graph.upsert_node(node("type:B", "B\"x", NodeKind::Type, "b.ts", Some("api")));
    graph.upsert_node(node("type:A", "A", NodeKind::Entity, "a.ts", None));
    graph.add_edge("type:A", "type:B", EdgeKind::Imports);
    assert_eq!(
        graph.to_json(),
        "{\"nodes\":[{\"id\":\"type:A\",\"name\":\"A\",\"kind\":\"entity\",\"path\":\"a.ts\",\"layer\":null,\"members\":[]},{\"id\":\"type:B\",\"name\":\"B\\\"x\",\"kind\":\"type\",\"path\":\"b.ts\",\"layer\":\"api\",\"members\":[]}],\"edges\":[{\"from\":\"type:A\",\"to\":\"type:B\",\"kind\":\"imports\"}]}"
    );
}
