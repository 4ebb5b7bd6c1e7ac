use apex::graph::Graph;
use apex::languages::supported_languages;
use apex::layout::layout;
use apex::model::{EdgeKind, Node, NodeKind, RuleDefinition, Violation};
use apex::report::{
    command_of, daemon_line, language_line, rule_explanation, rule_line, rules_command_of, rules_template,
    unknown_command, violation_line, violations_summary, Command, RulesCommand,
};
use apex::rules::{check_graph, check_graph_with_rules, default_rules};
use apex::rules_file::{parse_rules, yaml_scalar};
use apex::web::{percent_decode_with, Dialect};
use apex::scan::{extension_of, is_parseable_path, parse_repository, recognizer_of, source_would_panic, DaemonStatus, Recognizer, SourceFile};

fn args(words: &[&str]) -> Vec<String> {
    words.iter().map(|w| w.to_string()).collect()
}

fn node(id: &str, name: &str, kind: NodeKind, path: &str, layer: Option<&str>) -> Node {
    Node { id: id.into(), name: name.into(), kind, path: path.into(), layer: layer.map(|l| l.to_string()) }
}

#[test]
fn commands_are_chosen_by_first_word() {
    assert!(matches!(command_of(Vec::new()), Command::Help));
    assert!(matches!(command_of(args(&["scan"])), Command::Scan(p) if p == "."));
    assert!(matches!(command_of(args(&["serve", "repo", "x"])), Command::Serve(p) if p == "repo"));
    assert!(matches!(command_of(args(&["diagram", "a", "b"])), Command::Export(r) if r == args(&["a", "b"])));
    assert!(matches!(command_of(args(&["-h"])), Command::Help));
    assert!(matches!(command_of(args(&["frobnicate"])), Command::Unknown(w) if w == "frobnicate"));
    assert_eq!(unknown_command("frobnicate"), "unknown command 'frobnicate'");
}

#[test]
fn rules_subcommands() {
    assert!(matches!(rules_command_of(&Vec::new()), Ok(RulesCommand::List)));
    assert!(matches!(rules_command_of(&args(&["explain"])), Ok(RulesCommand::Explain(i)) if i.is_empty()));
    assert!(matches!(rules_command_of(&args(&["template", "-o", "r.yaml"])), Ok(RulesCommand::TemplateTo(p)) if p == "r.yaml"));
    assert!(matches!(rules_command_of(&args(&["template"])), Ok(RulesCommand::Template)));
    assert_eq!(rules_command_of(&args(&["template", "--out"])).err(), Some("--out requires a file path".to_string()));
    assert_eq!(rules_command_of(&args(&["drop"])).err(), Some("unknown rules command 'drop'".to_string()));
    assert!(rules_template().starts_with("version: 1\nrules:\n  - id: RULE-LAYER-001\n"));
    assert!(rule_explanation("import_cycle").starts_with("RULE-CYCLE-001 detects import cycles"));
    assert_eq!(rule_explanation("X"), "Known rules: RULE-LAYER-001, RULE-CYCLE-001");
}

#[test]
fn report_lines() {
    let rules = default_rules();
    assert_eq!(rule_line(&rules[0]), "RULE-LAYER-001 (forbidden_import) enabled=true from=api to=infrastructure");
    assert_eq!(rule_line(&rules[1]), "RULE-CYCLE-001 (import_cycle) enabled=true from=- to=-");
    let v = Violation { rule_id: "R".into(), message: "m".into(), subject: "s".into() };
    assert_eq!(violation_line(&v), "R: m (s)");
    assert_eq!(violations_summary(3), "3 violation(s) detected");
    let langs = supported_languages();
    assert_eq!(language_line(&langs[5]), "- Kotlin (kt, kts) — classes, interfaces, objects, members, imports, inheritance");
    let status = DaemonStatus { workspace: "w".into(), nodes: 12 };
    assert_eq!(daemon_line(&status), "Apex daemon scan ready for w with 12 graph nodes; run `apex ui` for the local workbench");
}

#[test]
fn rules_file_reading() {
    let rules = parse_rules(
        "rules:\n  - id: A\n    type: forbidden_import\n    from: \"api\"\n    to: 'db'\n    enabled: false\n  - id: NO-TYPE\n  - id: B\n    type: import_cycle\n",
    );
    assert_eq!(rules.len(), 2);
    assert_eq!(
        rules[0],
        RuleDefinition {
            id: "A".into(),
            rule_type: "forbidden_import".into(),
            from: Some("api".into()),
            to: Some("db".into()),
            enabled: false
        }
    );
    assert_eq!(rules[1].id, "B");
    assert!(rules[1].enabled);
    assert!(parse_rules("type: orphan\n").is_empty());
    assert_eq!(yaml_scalar(&[' ', '"', 'x', '\'', ' ']), vec!['x']);
}

#[test]
fn extensions_and_recognizers() {
    assert_eq!(extension_of("Main.KT"), "kt");
    assert_eq!(extension_of(".gitignore"), "");
    assert_eq!(extension_of("archive.tar.GZ"), "gz");
    assert_eq!(extension_of("Makefile"), "");
    assert_eq!(recognizer_of(&['t', 's', 'x'], "ui/App.tsx"), Recognizer::Typescript);
    assert_eq!(recognizer_of(&[], "svc/go.mod"), Recognizer::Manifest);
    assert_eq!(recognizer_of(&[], "Dockerfile"), Recognizer::Unparsed);
    assert!(is_parseable_path("Dockerfile"));
    assert!(is_parseable_path("Schema.PRISMA"));
    assert!(!is_parseable_path("README.md"));
}

#[test]
fn repository_scan_dispatches_by_extension() {
    let files = vec![
        SourceFile { file_name: "model.py".into(), relative: "app/model.py".into(), content: "class Order:\n    pass\n".into() },
        SourceFile { file_name: "schema.sql".into(), relative: "db/schema.sql".into(), content: "CREATE TABLE orders (\n  id int\n);\n".into() },
        SourceFile { file_name: "notes.txt".into(), relative: "notes.txt".into(), content: "class Ignored {}".into() },
    ];
    assert!(files.iter().all(|f| !source_would_panic(f)));
    let graph = parse_repository(&files);
    assert!(graph.nodes.contains_key("type:Order"));
    assert!(graph.nodes.contains_key("file:app/model.py"));
    assert!(!graph.nodes.contains_key("type:Ignored"));
}

#[test]
fn edges_are_recorded_once() {
    let mut graph = Graph::new();
    graph.add_edge("type:A", "type:B", EdgeKind::Imports);
    graph.add_edge("type:A", "type:B", EdgeKind::Imports);
    graph.add_edge("type:A", "type:A", EdgeKind::Imports);
    graph.add_edge("type:A", "type:string", EdgeKind::Imports);
    assert_eq!(graph.edges.len(), 1);
}

#[test]
fn focus_keeps_center_and_grows_with_hops() {
    let mut graph = Graph::new();
    for id in ["a", "b", "c"] {
        graph.upsert_node(node(id, id, NodeKind::Type, "x.ts", None));
    }
    graph.add_edge("a", "b", EdgeKind::Imports);
    graph.add_edge("b", "c", EdgeKind::Imports);
    let zero = graph.focus("b", 0);
    assert_eq!(zero.nodes.len(), 1);
    assert!(zero.nodes.contains_key("b"));
    assert_eq!(graph.focus("b", 1).nodes.len(), 3);
    assert_eq!(graph.focus("a", 2).nodes.len(), 3);
}

#[test]
fn layout_places_nodes_apart() {
    let mut graph = Graph::new();
    for i in 0..9 {
        let id = format!("type:N{i}");
        graph.upsert_node(node(&id, &id, NodeKind::Type, "x.ts", None));
    }
    let places = layout(&graph);
    let mut seen = std::collections::BTreeSet::new();
    for (_, p) in places.entries() {
        assert!(seen.insert(*p));
    }
    assert_eq!(places.entries()[4].1, (40, 150));
}

#[test]
fn violations_come_sorted_and_once() {
    let mut graph = Graph::new();
    graph.upsert_node(node("type:A", "A", NodeKind::Type, "a.ts", Some("api")));
    graph.upsert_node(node("type:B", "B", NodeKind::Type, "b.ts", Some("infrastructure")));
    graph.add_edge("type:A", "type:B", EdgeKind::Imports);
    graph.add_edge("type:B", "type:A", EdgeKind::Imports);
    let v = check_graph(&graph);
    let keys: Vec<(String, String)> = v.iter().map(|x| (x.rule_id.clone(), x.subject.clone())).collect();
    assert_eq!(
        keys,
        vec![
            ("RULE-CYCLE-001".to_string(), "type:A".to_string()),
            ("RULE-CYCLE-001".to_string(), "type:B".to_string()),
            ("RULE-LAYER-001".to_string(), "a.ts".to_string()),
        ]
    );
    let mut disabled = default_rules();
    for r in disabled.iter_mut() {
        r.enabled = false;
    }
    assert!(check_graph_with_rules(&graph, &disabled).is_empty());
}

#[test]
fn fan_in_and_fan_out_totals_balance() {
    let mut graph = Graph::new();
    for id in ["type:A", "type:B", "type:C"] {
        graph.upsert_node(node(id, id, NodeKind::Type, "x.ts", None));
    }
    graph.add_edge("type:A", "type:B", EdgeKind::Imports);
    graph.add_edge("type:A", "type:C", EdgeKind::Extends);
    graph.add_edge("type:C", "type:B", EdgeKind::Contains);
    graph.add_edge("type:C", "type:Missing", EdgeKind::Imports);
    let m = apex::metrics::compute_metrics(&graph);
    let total_in: usize = m.fan_in.entries().iter().map(|e| e.1).sum();
    let total_out: usize = m.fan_out.entries().iter().map(|e| e.1).sum();
    assert_eq!(total_in, 2);
    assert_eq!(total_out, 2);
}

#[test]
fn plain_text_is_left_alone_by_decoding() {
    for text in ["src/main.rs", "élan vital", "a=b&c"] {
        assert_eq!(percent_decode_with(text, Dialect::Cli), Ok(text.to_string()));
        assert_eq!(percent_decode_with(text, Dialect::Ui), Ok(text.to_string()));
    }
}

#[test]
fn rules_template_reads_back_as_the_built_in_rules() {
    assert_eq!(parse_rules(rules_template()), default_rules());
}

#[test]
fn cycles_follow_the_search_order() {
    let mut graph = Graph::new();
    for id in ["type:A", "type:B", "type:C", "type:D"] {
        graph.upsert_node(node(id, id, NodeKind::Type, "x.ts", None));
    }
    graph.add_edge("type:A", "type:B", EdgeKind::Imports);
    graph.add_edge("type:B", "type:C", EdgeKind::Imports);
    graph.add_edge("type:C", "type:A", EdgeKind::Imports);
    graph.add_edge("type:A", "type:C", EdgeKind::Imports);
    graph.add_edge("type:D", "type:D", EdgeKind::Imports);
    graph.add_edge("type:C", "type:B", EdgeKind::Imports);
    let m = apex::metrics::compute_metrics(&graph);
    assert_eq!(
        m.cycles,
        vec![
            vec!["type:A".to_string(), "type:B".to_string(), "type:C".to_string()],
            vec!["type:B".to_string(), "type:C".to_string()],
        ]
    );
}

#[test]
fn stored_nodes_and_members_read_back() {
    let mut graph = Graph::new();
    graph.upsert_node(node("type:A", "A", NodeKind::Type, "a.ts", None));
    graph.upsert_node(node("type:B", "B", NodeKind::Type, "b.ts", None));
    graph.upsert_node(node("type:A", "A2", NodeKind::Entity, "a2.ts", Some("data")));
    assert_eq!(graph.nodes.get("type:A"), Some(&node("type:A", "A2", NodeKind::Entity, "a2.ts", Some("data"))));
    assert_eq!(graph.nodes.get("type:B").map(|n| n.name.as_str()), Some("B"));
    graph.add_member("type:A", apex::model::Member { name: "save".into(), kind: apex::model::MemberKind::Method });
    graph.add_member("type:A", apex::model::Member { name: "save".into(), kind: apex::model::MemberKind::Method });
    graph.add_member("type:A", apex::model::Member { name: "".into(), kind: apex::model::MemberKind::Field });
    let members = graph.members.get("type:A").expect("members");
    assert_eq!(members.len(), 1);
    assert_eq!(members[0].name, "save");
}

#[test]
fn hotspots_are_the_ten_busiest_in_order() {
    let mut graph = Graph::new();
    for i in 0..12 {
        let id = format!("type:T{i:02}");
        graph.upsert_node(node(&id, &id, NodeKind::Type, "t.ts", None));
    }
    for i in 0..12 {
        for j in 0..i {
            graph.add_edge(&format!("type:T{i:02}"), &format!("type:T{j:02}"), EdgeKind::Imports);
        }
    }
    let m = apex::metrics::compute_metrics(&graph);
    assert_eq!(m.hotspots.len(), 10);
    for pair in m.hotspots.windows(2) {
        assert!(pair[0].fan_in + pair[0].fan_out >= pair[1].fan_in + pair[1].fan_out);
    }
    assert_eq!(m.hotspots[0].fan_in + m.hotspots[0].fan_out, 11);
}

#[test]
fn components_count_linked_groups() {
    let mut graph = Graph::new();
    for id in ["type:A", "type:B", "type:C"] {
        graph.upsert_node(node(id, id, NodeKind::Type, "x.ts", None));
    }
    graph.upsert_node(node("file:x.ts", "x.ts", NodeKind::File, "x.ts", None));
    graph.add_edge("type:B", "type:A", EdgeKind::Imports);
    graph.add_edge("file:x.ts", "type:C", EdgeKind::Contains);
    let m = apex::metrics::compute_metrics(&graph);
    assert_eq!(m.component_count, 2);
    assert_eq!(m.orphans, vec!["type:C".to_string()]);
}

#[test]
fn diagram_places_every_node_apart() {
    let mut graph = Graph::new();
    for i in 0..7 {
        let id = format!("type:D{i}");
        graph.upsert_node(node(&id, &id, NodeKind::Type, "d.ts", None));
    }
    graph.add_edge("type:D0", "type:D1", EdgeKind::Imports);
    graph.add_edge("type:D1", "type:D2", EdgeKind::Imports);
    graph.add_edge("type:D4", "type:D5", EdgeKind::Imports);
    let positions = apex::diagram::diagram_layout(&graph);
    assert_eq!(positions.len(), 7);
    let entries = positions.entries();
    for a in 0..entries.len() {
        for b in (a + 1)..entries.len() {
            assert_ne!(entries[a].1, entries[b].1);
        }
    }
}

#[test]
fn layer_markers_count_at_the_start_of_a_path() {
    let layer = |p: &str| {
        let cs: Vec<char> = p.chars().collect();
        apex::recognize::layer_for_path(&cs)
    };
    assert_eq!(layer("data/User.ts"), Some("data".to_string()));
    assert_eq!(layer("db/Schema.ts"), Some("data".to_string()));
    assert_eq!(layer("infra/Cache.ts"), Some("infrastructure".to_string()));
    assert_eq!(layer("domain/Order.ts"), Some("service".to_string()));
    assert_eq!(layer("src/data/User.ts"), Some("data".to_string()));
    assert_eq!(layer("api/Routes.ts"), Some("api".to_string()));
    assert_eq!(layer("metadata/User.ts"), None);
}

#[test]
fn only_enabled_known_rules_change_the_check() {
    let mut graph = Graph::new();
    graph.upsert_node(node("type:A", "A", NodeKind::Type, "api/a.ts", Some("api")));
    graph.upsert_node(node("type:B", "B", NodeKind::Type, "infra/b.ts", Some("infrastructure")));
    graph.add_edge("type:A", "type:B", EdgeKind::Imports);
    graph.add_edge("type:B", "type:A", EdgeKind::Imports);
    let rule = |id: &str, ty: &str, enabled: bool| RuleDefinition {
        id: id.into(),
        rule_type: ty.into(),
        from: Some("api".into()),
        to: Some("infrastructure".into()),
        enabled,
    };
    let all = vec![
        rule("R1", "forbidden_import", true),
        rule("R2", "import_cycle", false),
        rule("R3", "size_limit", true),
        rule("R4", "import_cycle", true),
    ];
    let active: Vec<RuleDefinition> = all
        .iter()
        .filter(|r| r.enabled && (r.rule_type == "forbidden_import" || r.rule_type == "import_cycle"))
        .cloned()
        .collect();
    let full = check_graph_with_rules(&graph, &all);
    assert_eq!(full, check_graph_with_rules(&graph, &active));
    assert_eq!(full.len(), 3);
    let silent = vec![rule("R2", "import_cycle", false), rule("R3", "size_limit", true)];
    assert!(check_graph_with_rules(&graph, &silent).is_empty());
}

#[test]
fn cycles_are_reported_exactly_when_imports_loop() {
    let mut graph = Graph::new();
    for id in ["type:A", "type:B", "type:C"] {
        graph.upsert_node(node(id, id, NodeKind::Type, "x.ts", None));
    }
    graph.add_edge("type:A", "type:B", EdgeKind::Imports);
    graph.add_edge("type:B", "type:C", EdgeKind::Imports);
    assert!(apex::metrics::compute_metrics(&graph).cycles.is_empty());
    graph.add_edge("type:C", "type:A", EdgeKind::Imports);
    let cycles = apex::metrics::compute_metrics(&graph).cycles;
    assert_eq!(cycles.len(), 1);
    assert_eq!(cycles[0].len(), 3);
}
