use apex::api::{escape_html, graph_to_html, languages_to_json, optional_json, rules_to_json, violations_to_json};
use apex::cli::{expand_path, expand_path_shorthand, expand_with, CheckOptions, ExportOptions, MetricsOptions, UiOptions};
use apex::graph::Graph;
use apex::http::{
    asset_path_for, content_type_for, mime_for, plan_connection, request_line, response_header, static_route,
    ui_request_target, Connection, StaticFile,
};
use apex::model::{EdgeKind, Node, NodeKind, RuleDefinition, Violation};
use apex::recognize::starts_uppercase;
use apex::rules::default_rules;
use apex::server::{answer_with_graph, can_answer, can_render, error_response, plan_api, render_diagram, scan_failure, ApiPlan, DiagramFormat, GraphAnswer};
use apex::web::{find_param, is_format, parse_query, parse_query_with, percent_decode, percent_decode_with, split_target, Dialect};

fn args(words: &[&str]) -> Vec<String> {
    words.iter().map(|w| w.to_string()).collect()
}

fn node(id: &str, name: &str, kind: NodeKind, path: &str, layer: Option<&str>) -> Node {
    Node { id: id.into(), name: name.into(), kind, path: path.into(), layer: layer.map(|l| l.to_string()) }
}

#[test]
fn percent_decode_plain_plus_and_escapes() {
    assert_eq!(percent_decode_with("a+b%20c", Dialect::Cli), Ok("a b c".to_string()));
    assert_eq!(percent_decode_with("%C3%A9t%C3%A9", Dialect::Cli), Ok("été".to_string()));
    assert_eq!(percent_decode_with("%+f", Dialect::Ui), Ok("\u{f}".to_string()));
    assert_eq!(percent_decode_with("", Dialect::Ui), Ok(String::new()));
}

#[test]
fn percent_decode_errors_per_dialect() {
    assert_eq!(percent_decode_with("ab%4", Dialect::Cli), Err("incomplete percent escape".to_string()));
    assert_eq!(percent_decode_with("ab%4", Dialect::Ui), Ok("ab%4".to_string()));
    assert_eq!(percent_decode_with("%zz", Dialect::Cli), Err("invalid percent escape '%zz'".to_string()));
    assert_eq!(percent_decode_with("%zz", Dialect::Ui), Err("bad hex '%zz'".to_string()));
    assert_eq!(percent_decode_with("%\u{e9}", Dialect::Cli), Err("invalid percent escape '%\u{e9}'".to_string()));
    assert_eq!(percent_decode_with("%x\u{e9}", Dialect::Cli), Err("invalid percent escape".to_string()));
    assert_eq!(percent_decode_with("%x\u{e9}", Dialect::Ui), Err("invalid escape".to_string()));
    assert_eq!(percent_decode_with("%ff", Dialect::Cli), Err("decoded query is not valid UTF-8".to_string()));
    assert_eq!(percent_decode_with("%ff", Dialect::Ui), Err("not valid UTF-8".to_string()));
}

#[test]
fn split_target_and_query_parameters() {
    assert_eq!(split_target("/api/scan?path=a&x=1"), ("/api/scan".to_string(), "path=a&x=1".to_string()));
    assert_eq!(split_target("/index.html"), ("/index.html".to_string(), String::new()));
    let params = parse_query_with("path=%2Fsrc&&flag&bad=%zz&format=svg&path=second", Dialect::Cli);
    assert_eq!(
        params,
        vec![
            ("path".to_string(), "/src".to_string()),
            ("flag".to_string(), String::new()),
            ("format".to_string(), "svg".to_string()),
            ("path".to_string(), "second".to_string()),
        ]
    );
    assert_eq!(find_param(&params, "path"), Some("/src".to_string()));
    assert_eq!(find_param(&params, "missing"), None);
    assert!(is_format("mermaid"));
    assert!(!is_format("png"));
}

#[test]
fn json_bodies_are_exact() {
    let violations = vec![Violation {
        rule_id: "R".to_string(),
        message: "a \"b\"".to_string(),
        subject: "s".to_string(),
    }];
    assert_eq!(violations_to_json(&violations), "[{\"rule_id\":\"R\",\"message\":\"a \\\"b\\\"\",\"subject\":\"s\"}]");
    assert_eq!(violations_to_json(&[]), "[]");
    assert_eq!(
        rules_to_json(&default_rules()),
        "[{\"id\":\"RULE-LAYER-001\",\"type\":\"forbidden_import\",\"from\":\"api\",\"to\":\"infrastructure\",\"enabled\":true},{\"id\":\"RULE-CYCLE-001\",\"type\":\"import_cycle\",\"from\":null,\"to\":null,\"enabled\":true}]"
    );
    assert_eq!(optional_json(Some("x\ny")), "\"x\\ny\"");
    assert_eq!(optional_json(None), "null");
    let langs = languages_to_json();
    assert!(langs.starts_with("[{\"name\":\"TypeScript / JavaScript\",\"extensions\":[\"ts\",\"tsx\",\"js\",\"jsx\",\"mjs\",\"cjs\"],"));
    assert!(langs.ends_with("\"extracts\":\"package/config files plus npm and Cargo dependency edges\"}]"));
    assert_eq!(escape_html("<a & b>"), "&lt;a &amp; b&gt;");
}

#[test]
fn html_page_embeds_counts_svg_and_json() {
    let mut graph = Graph::new();
    graph.upsert_node(node("type:A", "A<", NodeKind::Type, "a.ts", None));
    let page = graph_to_html(&graph);
    assert!(page.starts_with("<!doctype html>"));
    assert!(page.contains("<p>1 nodes · 0 edges</p>"));
    assert!(page.contains(&graph.to_svg()));
    assert!(page.contains(&escape_html(&graph.to_json())));
    assert!(page.ends_with("</pre></details></main></body></html>"));
}

#[test]
fn api_routes_are_planned() {
    match plan_api("/api/health", "", Dialect::Cli) {
        ApiPlan::Respond(r) => {
            assert_eq!(r.status, 200);
            assert_eq!(r.body, "{\"status\":\"ok\"}");
        },
        _ => panic!("health answers at once"),
    }
    match plan_api("/api/scan", "path=%7E%2Frepo", Dialect::Cli) {
        ApiPlan::Scan(root, GraphAnswer::Scan) => assert_eq!(root, "~/repo"),
        _ => panic!("scan needs the graph"),
    }
    match plan_api("/api/check", "", Dialect::Ui) {
        ApiPlan::Scan(root, GraphAnswer::Check) => assert_eq!(root, "."),
        _ => panic!("check needs the graph"),
    }
    match plan_api("/api/diagram", "format=mermaid", Dialect::Cli) {
        ApiPlan::Scan(_, GraphAnswer::Diagram(DiagramFormat::Mermaid)) => {},
        _ => panic!("diagram needs the graph"),
    }
    match plan_api("/api/diagram", "format=png", Dialect::Cli) {
        ApiPlan::Respond(r) => {
            assert_eq!(r.status, 400);
            assert_eq!(r.body, "{\"error\":\"unsupported diagram format 'png'\"}");
        },
        _ => panic!("bad format is refused"),
    }
    match plan_api("/api/nothing", "", Dialect::Ui) {
        ApiPlan::Respond(r) => assert_eq!(r.body, "{\"error\":\"unknown API route\"}"),
        _ => panic!("unknown route is refused"),
    }
    match plan_api("/api/rules", "", Dialect::Cli) {
        ApiPlan::Respond(r) => assert_eq!(r.body, rules_to_json(&default_rules())),
        _ => panic!("rules answer at once"),
    }
    match plan_api("/api/languages", "", Dialect::Cli) {
        ApiPlan::Respond(r) => assert_eq!(r.body, languages_to_json()),
        _ => panic!("languages answer at once"),
    }
}

#[test]
fn graph_answers_use_the_graph() {
    let mut graph = Graph::new();
    graph.upsert_node(node("type:A", "A", NodeKind::Type, "a.ts", None));
    let r = answer_with_graph(GraphAnswer::Scan, &graph);
    assert_eq!((r.status, r.content_type, r.body.clone()), (200, "application/json; charset=utf-8", graph.to_json()));
    let r = answer_with_graph(GraphAnswer::Diagram(DiagramFormat::Svg), &graph);
    assert_eq!(r.content_type, "image/svg+xml; charset=utf-8");
    assert_eq!(r.body, render_diagram(DiagramFormat::Svg, &graph));
    let r = answer_with_graph(GraphAnswer::Check, &graph);
    assert_eq!(r.body, "[]");
    let r = answer_with_graph(GraphAnswer::Metrics, &graph);
    assert!(r.body.starts_with("{\"node_count\":1,\"edge_count\":0,"));
    let e = error_response("x\"y".to_string());
    assert_eq!((e.status, e.body), (400, "{\"error\":\"x\\\"y\"}".to_string()));
    assert_eq!(scan_failure("repo", "not found"), "failed to scan 'repo': not found");
}

#[test]
fn expand_path_forms() {
    assert_eq!(expand_path_shorthand("  ", Some("/h")), Ok(".".to_string()));
    assert_eq!(expand_path_shorthand("~", Some("/h")), Ok("/h".to_string()));
    assert_eq!(expand_path_shorthand("~/x", Some("/h/")), Ok("/h/x".to_string()));
    assert_eq!(expand_path_shorthand("$HOME//abs", Some("/h")), Ok("/abs".to_string()));
    assert_eq!(expand_path_shorthand(" src ", None), Ok("src".to_string()));
    assert_eq!(expand_path_shorthand("~", None), Err("cannot expand '~' because HOME is not set".to_string()));
    assert_eq!(expand_path_shorthand("~/a", None), Err("cannot expand '~/' because HOME is not set".to_string()));
    assert_eq!(expand_path_shorthand("${HOME}", None), Err("cannot expand HOME shorthand because HOME is not set".to_string()));
    assert_eq!(expand_with("$HOME/a", None, Dialect::Ui), Err("HOME is not set".to_string()));
}

#[test]
fn check_and_metrics_options() {
    let o = CheckOptions::from_args(args(&["repo", "--rules", "r.yaml", "other"])).expect("options");
    assert_eq!((o.root.as_str(), o.rules.as_deref()), ("other", Some("r.yaml")));
    assert_eq!(CheckOptions::from_args(args(&["-r"])).err(), Some("--rules requires a file path".to_string()));
    assert!(CheckOptions::from_args(args(&["-h"])).err().unwrap().starts_with("usage: apex check"));
    let m = MetricsOptions::from_args(args(&["-f", "json", "repo"])).expect("options");
    assert_eq!((m.root.as_str(), m.format.as_str()), ("repo", "json"));
    assert_eq!(MetricsOptions::from_args(args(&["--format", "xml"])).err(), Some("unsupported metrics format 'xml'".to_string()));
    assert_eq!(MetricsOptions::from_args(args(&["--format"])).err(), Some("--format requires a value".to_string()));
}

#[test]
fn export_and_ui_options() {
    let o = ExportOptions::from_args(args(&["mermaid", "repo", "-o", "out.mmd"])).expect("options");
    assert_eq!((o.format.as_str(), o.root.as_str(), o.output.as_deref()), ("mermaid", "repo", Some("out.mmd")));
    let d = ExportOptions::from_args(Vec::new()).expect("defaults");
    assert_eq!((d.format.as_str(), d.root.as_str(), d.output), ("svg", ".", None));
    assert_eq!(ExportOptions::from_args(args(&["--format", "png"])).err(), Some("unsupported export format 'png'".to_string()));
    assert_eq!(ExportOptions::from_args(args(&["--out"])).err(), Some("--out requires a value".to_string()));
    let u = UiOptions::from_args(args(&["--port", "+8080", "--host", "0.0.0.0", "--ui-dist", "~/dist"]), Some("/h")).expect("options");
    assert_eq!((u.host.as_str(), u.port, u.ui_dist.as_str()), ("0.0.0.0", 8080, "/h/dist"));
    let d = UiOptions::from_args(Vec::new(), None).expect("defaults");
    assert_eq!((d.host.as_str(), d.port, d.ui_dist.as_str()), ("127.0.0.1", 4317, "ui/dist"));
    assert_eq!(UiOptions::from_args(args(&["-p", "70000"]), None).err(), Some("invalid port '70000'".to_string()));
    assert_eq!(UiOptions::from_args(args(&["-p", "-1"]), None).err(), Some("invalid port '-1'".to_string()));
    assert_eq!(UiOptions::from_args(args(&["--verbose"]), None).err(), Some("unknown ui option '--verbose'".to_string()));
    assert_eq!(UiOptions::from_args(args(&["--ui-dist", "~/d"]), None).err(), Some("cannot expand '~/' because HOME is not set".to_string()));
}

#[test]
fn connections_and_static_files() {
    assert_eq!(request_line("GET /x HTTP/1.1\r\nHost: a\r\n"), Some(("GET".to_string(), "/x".to_string())));
    assert_eq!(request_line(""), None);
    assert_eq!(request_line("GET\n"), Some(("GET".to_string(), "/".to_string())));
    assert_eq!(ui_request_target(""), "/");
    match plan_connection("") {
        Connection::Respond(r) => assert_eq!((r.status, r.body.as_str()), (400, "missing request line")),
        _ => panic!("no request line"),
    }
    match plan_connection("POST /api/scan HTTP/1.1\r\n") {
        Connection::Respond(r) => assert_eq!(r.status, 405),
        _ => panic!("only GET"),
    }
    match plan_connection("GET /api/scan?path=. HTTP/1.1\r\n") {
        Connection::Api(t) => assert_eq!(t, "/api/scan?path=."),
        _ => panic!("api"),
    }
    match plan_connection("GET /assets/app.js HTTP/1.1\r\n") {
        Connection::Static(t) => assert_eq!(t, "/assets/app.js"),
        _ => panic!("static"),
    }
    match static_route("/") {
        StaticFile::File(p) => assert_eq!(p, "index.html"),
        _ => panic!("root"),
    }
    match static_route("//assets/a%20b.css?v=1") {
        StaticFile::File(p) => assert_eq!(p, "assets/a b.css"),
        _ => panic!("decoded"),
    }
    assert!(matches!(static_route("/a/../../etc/passwd"), StaticFile::Forbidden));
    assert!(matches!(static_route("/a%2"), StaticFile::Failed(_)));
    assert_eq!(asset_path_for("/"), "index.html");
    assert_eq!(asset_path_for("//x/y.js"), "x/y.js");
}

#[test]
fn content_types_and_headers() {
    assert_eq!(content_type_for("index.html"), "text/html; charset=utf-8");
    assert_eq!(content_type_for("app.JS"), "application/octet-stream");
    assert_eq!(content_type_for("logo.png"), "image/png");
    assert_eq!(content_type_for(".css"), "application/octet-stream");
    assert_eq!(mime_for("a/b.mjs"), "text/javascript; charset=utf-8");
    assert_eq!(mime_for("font.woff2"), "font/woff2");
    assert_eq!(mime_for("font.woff"), "font/woff");
    assert_eq!(mime_for("x.bin"), "application/octet-stream");
    assert_eq!(
        response_header(404, "text/plain", 9, Dialect::Cli),
        "HTTP/1.1 404 Not Found\r\nContent-Type: text/plain\r\nContent-Length: 9\r\nCache-Control: no-store\r\nConnection: close\r\n\r\n"
    );
    assert_eq!(
        response_header(405, "text/plain", 0, Dialect::Ui),
        "HTTP/1.1 405 Error\r\nContent-Type: text/plain\r\nContent-Length: 0\r\nAccess-Control-Allow-Origin: *\r\nCache-Control: no-store\r\nConnection: close\r\n\r\n"
    );
    assert!(response_header(405, "t", 1, Dialect::Cli).starts_with("HTTP/1.1 405 Method Not Allowed\r\n"));
    assert!(response_header(500, "t", 1, Dialect::Cli).starts_with("HTTP/1.1 500 Internal Server Error\r\n"));
}

#[test]
fn uppercase_check_uses_unicode() {
    assert!(starts_uppercase(&['É', 'x']));
    assert!(!starts_uppercase(&['é']));
    assert!(!starts_uppercase(&[]));
}

#[test]
fn rule_definitions_round_trip_through_json() {
    let rules = vec![RuleDefinition {
        id: "X".to_string(),
        rule_type: "import_cycle".to_string(),
        from: None,
        to: Some("db".to_string()),
        enabled: false,
    }];
    assert_eq!(
        rules_to_json(&rules),
        "[{\"id\":\"X\",\"type\":\"import_cycle\",\"from\":null,\"to\":\"db\",\"enabled\":false}]"
    );
    let _ = EdgeKind::Imports;
}

#[test]
fn named_decoders_follow_the_command_line() {
    assert_eq!(percent_decode("a%2"), Err("incomplete percent escape".to_string()));
    assert_eq!(parse_query("k=%41&x=%2"), vec![("k".to_string(), "A".to_string())]);
    assert_eq!(parse_query_with("x=%2", Dialect::Ui), vec![("x".to_string(), "%2".to_string())]);
    assert_eq!(expand_path("~", None), Err("HOME is not set".to_string()));
    assert_eq!(expand_path("${HOME}/x", Some("/h")), Ok("/h/x".to_string()));
}

#[test]
fn small_graphs_can_be_answered_and_rendered() {
    let graph = Graph::new();
    assert!(can_render(DiagramFormat::Svg, &graph));
    assert!(can_render(DiagramFormat::Json, &graph));
    assert!(can_answer(GraphAnswer::Metrics, &graph));
    assert!(can_answer(GraphAnswer::Diagram(DiagramFormat::Html), &graph));
    assert_eq!(render_diagram(DiagramFormat::Json, &graph), graph.to_json());
    assert_eq!(render_diagram(DiagramFormat::Mermaid, &graph), graph.to_mermaid());
}
