use apex::cli::expand_path_shorthand;
use apex::graph::Graph;
use apex::languages::supported_languages;
use apex::metrics::compute_metrics;
use apex::model::{Edge, EdgeKind, Node, NodeKind};
use apex::parsers::parse_typescript;
use apex::rules_file::parse_rules;
use apex::scan::{decode_source, is_parseable_path, parse_repository, parse_workspace, serve_once, SourceFile};
use std::path::Path;

fn node(id: &str, name: &str, kind: NodeKind, path: &str, layer: Option<&str>) -> Node {
    Node {
        id: id.into(),
        name: name.into(),
        kind,
        path: path.into(),
        layer: layer.map(|l| l.to_string()),
    }
}

fn source(relative: &str, content: &str) -> SourceFile {
    let file_name = relative.rsplit('/').next().unwrap_or(relative).to_string();
    SourceFile { file_name, relative: relative.to_string(), content: content.to_string() }
}

#[test]
fn test_supported_languages_include_go_rust_kotlin_and_csharp() {
    let names: Vec<_> = supported_languages().into_iter().map(|language| language.name).collect();

    assert!(names.contains(&"Go"));
    assert!(names.contains(&"Rust"));
    assert!(names.contains(&"Kotlin"));
    assert!(names.contains(&"C#"));
}

#[test]
fn test_disconnected_type_nodes_render_without_forced_edges() {
    let mut graph = Graph::new();
    graph.upsert_node(node("type:Alpha", "Alpha", NodeKind::Type, "alpha.go", None));
    graph.upsert_node(node("type:Beta", "Beta", NodeKind::Type, "beta.go", None));

    let mermaid = graph.to_mermaid();
    let svg = graph.to_svg();

    assert!(mermaid.contains("class Alpha"));
    assert!(mermaid.contains("class Beta"));
    assert!(!mermaid.contains("-->"));
    assert!(svg.contains("Alpha"));
    assert!(svg.contains("Beta"));
}

#[test]
fn test_body_aware_imports_avoid_blanket_edges() {
    // Two TS classes share the same import; only the one referencing it should connect.
    let src = r#"
import { Logger } from "./logger";
import { Cache } from "./cache";

export class Alpha {
  use(): void {
    const log = new Logger();
    log.info("hi");
  }
}

export class Beta {
  add(value: number): number {
    return value + 1;
  }
}
"#;
    let mut graph = Graph::new();
    parse_typescript(&mut graph, "alpha.ts", src);
    let edges: Vec<&Edge> = graph.edges.iter().filter(|e| matches!(e.kind, EdgeKind::Imports)).collect();
    let alpha_to_logger = edges.iter().any(|e| e.from == "type:Alpha" && e.to.ends_with("Logger"));
    let beta_to_logger = edges.iter().any(|e| e.from == "type:Beta" && e.to.ends_with("Logger"));
    let beta_to_cache = edges.iter().any(|e| e.from == "type:Beta" && e.to.ends_with("Cache"));
    assert!(alpha_to_logger, "Alpha should import Logger");
    assert!(!beta_to_logger, "Beta must not import Logger");
    assert!(!beta_to_cache, "Beta must not import unused Cache");
}

#[test]
fn test_compute_metrics_basic() {
    let mut graph = Graph::new();
    graph.upsert_node(node("type:A", "A", NodeKind::Type, "a.ts", Some("service")));
    graph.upsert_node(node("type:B", "B", NodeKind::Type, "b.ts", Some("data")));
    graph.add_edge("type:A", "type:B", EdgeKind::Imports);
    graph.add_edge("type:B", "type:A", EdgeKind::Imports);
    let m = compute_metrics(&graph);
    assert_eq!(m.node_count, 2);
    assert_eq!(m.cycles.len(), 1);
    assert!(m.layer_mix.get("service").copied().unwrap_or(0) >= 1);
}

#[test]
fn test_serve_once_current_dir_succeeds() {
    let status = serve_once(".", &Vec::new());
    assert!(!status.workspace.is_empty());
}

#[test]
fn test_expand_path_shorthand_supports_tilde() {
    let expanded = expand_path_shorthand("~/", Some("/home/apex")).expect("expand ~/");
    assert!(Path::new(&expanded).is_absolute());
}

#[test]
fn test_expand_path_shorthand_supports_home_env_forms() {
    let expanded = expand_path_shorthand("$HOME", Some("/home/apex")).expect("expand $HOME");
    assert!(Path::new(&expanded).is_absolute());
    let expanded_braced = expand_path_shorthand("${HOME}/tmp", Some("/home/apex")).expect("expand ${HOME}/tmp");
    assert!(Path::new(&expanded_braced).ends_with("tmp"));
}

#[test]
fn test_load_rules_parses_forbidden_import_rule() {
    let rules = parse_rules(
        "version: 1\nrules:\n  - id: CUSTOM-001\n    type: forbidden_import\n    from: service\n    to: data\n    enabled: true\n",
    );

    assert_eq!(rules[0].id, "CUSTOM-001");
    assert_eq!(rules[0].from.as_deref(), Some("service"));
}

#[test]
fn test_go_parser_creates_symbol_edges_not_package_edges() {
    let files = vec![source(
        "service.go",
        "package service\n\nimport (\n    \"example.com/acme/repository\"\n)\n\ntype UserService struct {\n    repository repository.UserRepository\n}\n\ntype UserReader interface {\n    FindUser(id string) string\n}\n\nfunc NewUserService(repository repository.UserRepository) UserService {\n    return UserService{repository: repository}\n}\n",
    )];

    let graph = parse_repository(&files);

    assert!(graph.nodes.contains_key("type:UserService"));
    assert!(graph.nodes.contains_key("type:UserRepository"));
    assert!(graph.nodes.contains_key("type:UserReader"));
    assert!(!graph.nodes.contains_key("type:repository"));
    assert!(!graph.nodes.contains_key("type:NewUserService"));
    assert!(graph.edges.contains(&Edge {
        from: "type:UserService".to_string(),
        to: "type:UserRepository".to_string(),
        kind: EdgeKind::Imports,
    }));
    assert!(!graph.edges.iter().any(|edge| edge.from.starts_with("file:") && matches!(edge.kind, EdgeKind::Imports)));
}

#[test]
fn test_parse_repository_ignores_binary_non_source_files() {
    assert!(is_parseable_path("UserService.java"));
    assert!(!is_parseable_path("archive.zip"));
    assert!(!is_parseable_path("dependency.jar"));
    assert!(!is_parseable_path("diagram.png"));
    assert!(decode_source(&[0x50, 0x4b, 0x99, 0x00]).is_none());

    let files = vec![source("UserService.java", "package app;\n\nclass UserService {}\n")];
    let graph = parse_repository(&files);

    assert!(graph.nodes.contains_key("type:UserService"));
    assert!(!graph.nodes.contains_key("file:archive.zip"));
    assert!(!graph.nodes.contains_key("file:lib/dependency.jar"));
    assert!(!graph.nodes.contains_key("file:diagram.png"));
}

#[test]
fn test_parse_repository_tolerates_non_utf8_source_bytes() {
    let bytes = [
        b'c', b'l', b'a', b's', b's', b' ', b'L', b'e', b'g', b'a', b'c', b'y', b' ', b'{', b' ', 0xff, b' ', b'}',
    ];
    let text = decode_source(&bytes).expect("legacy source encoding should not fail scan");
    assert_eq!(text, "class Legacy { \u{FFFD} }");

    let graph = parse_repository(&vec![source("Legacy.java", &text)]);

    assert!(graph.nodes.contains_key("type:Legacy"));
}

#[test]
fn test_parse_workspace_typescript_class_detected() {
    let graph = parse_workspace(&vec![source("UserService.ts", "export class UserService {}\n")]);

    assert!(graph.nodes.contains_key("type:UserService"));
}

#[test]
fn valid_utf8_sources_decode_exactly() {
    assert_eq!(decode_source("été → ok".as_bytes()), Some("été → ok".to_string()));
    assert_eq!(decode_source(b""), Some(String::new()));
    let mut late_nul = vec![b'a'; 4096];
    late_nul.push(0);
    assert!(decode_source(&late_nul).is_some());
}

#[test]
fn neighbours_ignore_direction() {
    let mut graph = Graph::new();
    graph.add_edge("a", "b", EdgeKind::Imports);
    assert!(graph.neighbours("a").contains_key("b"));
    assert!(graph.neighbours("b").contains_key("a"));
}

#[test]
fn scans_pass_over_build_and_vendor_directories() {
    assert!(apex::scan::is_skipped_entry("target"));
    assert!(apex::scan::is_skipped_entry("node_modules"));
    assert!(apex::scan::is_skipped_entry(".git"));
    assert!(!apex::scan::is_skipped_entry("src"));
}
