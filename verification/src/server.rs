//! The decisions of the two local HTTP servers: which answer an API route
//! gets (at once, or after scanning a repository), the bodies of the answers,
//! content types and response headers.
use crate::api::{graph_page, graph_to_html, language_items, languages_to_json, rules_json, rules_to_json, violations_json, violations_to_json};
use crate::graph::Graph;
use crate::languages::language_table;
use crate::metrics::{compute_metrics, metrics_of};
use crate::metrics_json::{metrics_json, metrics_to_json};
use crate::render::{decimal, graph_json, graph_mermaid, json_escape, push_decimal, push_json_escaped};
use crate::rules::{all_hits, check_graph, dedup_violations, default_rule_views, default_rules, sort_violations, violation_views};
use crate::svg::svg_document;
use crate::text::{chars_of, eq_lit, owned, push_all, push_str, string_of};
use crate::web::{find_param, is_format, is_format_name, param_value, params_view, parse_query_with, parsed_query, Dialect};
use vstd::prelude::*;

verus! {

broadcast use vstd::string::group_string_axioms;

/// An HTTP answer: status, content type and body.
pub struct HttpResponse {
    pub status: u16,
    pub content_type: &'static str,
    pub body: String,
}

/// An HTTP answer read as plain values.
pub struct ResponseView {
    pub status: u16,
    pub content_type: Seq<char>,
    pub body: Seq<char>,
}

impl View for HttpResponse {
    type V = ResponseView;

    open spec fn view(&self) -> ResponseView {
        ResponseView { status: self.status, content_type: self.content_type@, body: self.body@ }
    }
}

/// The JSON content type.
pub open spec fn json_type() -> Seq<char> {
    "application/json; charset=utf-8"@
}

/// The answer to a refused request: status 400 and the message as JSON.
pub open spec fn error_view(message: Seq<char>) -> ResponseView {
    ResponseView { status: 400, content_type: json_type(), body: "{\"error\":\""@ + json_escape(message) + "\"}"@ }
}

/// The answer to a refused request.
pub fn error_response(message: String) -> (r: HttpResponse)
    ensures
        r@ == error_view(message@),
{
    let mut out: Vec<char> = Vec::new();
    push_str(&mut out, "{\"error\":\"");
    push_json_escaped(&mut out, message.as_str());
    push_str(&mut out, "\"}");
    assert(out@ =~= "{\"error\":\""@ + json_escape(message@) + "\"}"@);
    HttpResponse { status: 400, content_type: "application/json; charset=utf-8", body: string_of(out.as_slice()) }
}

/// The formats a diagram can be rendered in.
#[derive(Clone, Copy, Debug, PartialEq, Eq, Structural)]
pub enum DiagramFormat {
    Json,
    Mermaid,
    Html,
    Svg,
}

/// The format a format name stands for.
pub open spec fn format_named(v: Seq<char>) -> DiagramFormat {
    if v == "json"@ {
        DiagramFormat::Json
    } else if v == "mermaid"@ {
        DiagramFormat::Mermaid
    } else if v == "html"@ {
        DiagramFormat::Html
    } else {
        DiagramFormat::Svg
    }
}

/// The format a format name stands for (`svg` for any other name).
pub fn diagram_format(v: &str) -> (r: DiagramFormat)
    ensures
        r == format_named(v@),
{
    let c = chars_of(v);
    if eq_lit(c.as_slice(), "json") {
        DiagramFormat::Json
    } else if eq_lit(c.as_slice(), "mermaid") {
        DiagramFormat::Mermaid
    } else if eq_lit(c.as_slice(), "html") {
        DiagramFormat::Html
    } else {
        DiagramFormat::Svg
    }
}

/// A graph rendered in a diagram format.
pub open spec fn diagram_text(f: DiagramFormat, g: Graph) -> Seq<char> {
    match f {
        DiagramFormat::Json => graph_json(g),
        DiagramFormat::Mermaid => graph_mermaid(g),
        DiagramFormat::Html => graph_page(g),
        DiagramFormat::Svg => svg_document(g),
    }
}

/// Whether the diagram layout's coordinates of a graph fit in a machine word.
pub open spec fn drawable(g: Graph) -> bool {
    g.nodes@.len() <= crate::diagram::node_limit()
}

/// Whether a format lays the graph out (the SVG drawing and the page that embeds it).
pub open spec fn lays_out(f: DiagramFormat) -> bool {
    f == DiagramFormat::Svg || f == DiagramFormat::Html
}

/// Whether a graph can be rendered in a format: a layout is bounded by the
/// layout's arithmetic.
pub open spec fn renderable(f: DiagramFormat, g: Graph) -> bool {
    lays_out(f) ==> drawable(g)
}

/// Whether a graph can be rendered in a format.
pub fn can_render(f: DiagramFormat, graph: &Graph) -> (r: bool)
    ensures
        r == renderable(f, *graph),
{
    match f {
        DiagramFormat::Svg | DiagramFormat::Html => graph.nodes.len() <= usize::MAX / 1024,
        _ => true,
    }
}

/// Renders a graph in a diagram format.
pub fn render_diagram(f: DiagramFormat, graph: &Graph) -> (r: String)
    requires
        renderable(f, *graph),
    ensures
        r@ == diagram_text(f, *graph),
{
    match f {
        DiagramFormat::Json => graph.to_json(),
        DiagramFormat::Mermaid => graph.to_mermaid(),
        DiagramFormat::Html => graph_to_html(graph),
        DiagramFormat::Svg => graph.to_svg(),
    }
}

/// The content type a diagram is served with.
pub open spec fn diagram_type(f: DiagramFormat) -> Seq<char> {
    match f {
        DiagramFormat::Json => json_type(),
        DiagramFormat::Mermaid => "text/plain; charset=utf-8"@,
        DiagramFormat::Html => "text/html; charset=utf-8"@,
        DiagramFormat::Svg => "image/svg+xml; charset=utf-8"@,
    }
}

fn diagram_content_type(f: DiagramFormat) -> (r: &'static str)
    ensures
        r@ == diagram_type(f),
{
    match f {
        DiagramFormat::Json => "application/json; charset=utf-8",
        DiagramFormat::Mermaid => "text/plain; charset=utf-8",
        DiagramFormat::Html => "text/html; charset=utf-8",
        DiagramFormat::Svg => "image/svg+xml; charset=utf-8",
    }
}

/// What is answered from a scanned graph.
#[derive(Clone, Copy, Debug, PartialEq, Eq, Structural)]
pub enum GraphAnswer {
    /// The graph as JSON.
    Scan,
    /// The violations of the built-in rules.
    Check,
    /// The graph's metrics.
    Metrics,
    /// The graph as a diagram.
    Diagram(DiagramFormat),
}

/// What an API request needs: an answer at once, or a scan of the repository
/// at a path (shorthand not yet expanded) and then an answer from its graph.
pub enum ApiPlan {
    Respond(HttpResponse),
    Scan(String, GraphAnswer),
}

/// An API plan read as plain values.
pub enum PlanView {
    Respond(ResponseView),
    Scan(Seq<char>, GraphAnswer),
}

impl View for ApiPlan {
    type V = PlanView;

    open spec fn view(&self) -> PlanView {
        match self {
            ApiPlan::Respond(r) => PlanView::Respond(r@),
            ApiPlan::Scan(p, a) => PlanView::Scan(p@, *a),
        }
    }
}

/// The repository path a request names: its first `path` parameter, else `.`.
pub open spec fn requested_root(ps: Seq<(Seq<char>, Seq<char>)>) -> Seq<char> {
    match param_value(ps, "path"@) {
        Some(v) => v,
        None => "."@,
    }
}

/// What an API path and query call for.
pub open spec fn api_plan(path: Seq<char>, query: Seq<char>, d: Dialect) -> PlanView {
    let ps = parsed_query(query, d);
    if path == "/api/health"@ {
        PlanView::Respond(ResponseView { status: 200, content_type: json_type(), body: "{\"status\":\"ok\"}"@ })
    } else if path == "/api/scan"@ {
        PlanView::Scan(requested_root(ps), GraphAnswer::Scan)
    } else if path == "/api/check"@ {
        PlanView::Scan(requested_root(ps), GraphAnswer::Check)
    } else if path == "/api/metrics"@ {
        PlanView::Scan(requested_root(ps), GraphAnswer::Metrics)
    } else if path == "/api/rules"@ {
        PlanView::Respond(ResponseView { status: 200, content_type: json_type(), body: rules_json(default_rule_views()) })
    } else if path == "/api/languages"@ {
        PlanView::Respond(
            ResponseView { status: 200, content_type: json_type(), body: seq!['['] + language_items(language_table()) + seq![']'] },
        )
    } else if path == "/api/diagram"@ {
        let format = match param_value(ps, "format"@) {
            Some(v) => v,
            None => "svg"@,
        };
        if !is_format_name(format) {
            PlanView::Respond(error_view("unsupported diagram format '"@ + format + "'"@))
        } else {
            PlanView::Scan(requested_root(ps), GraphAnswer::Diagram(format_named(format)))
        }
    } else {
        PlanView::Respond(error_view("unknown API route"@))
    }
}

fn root_of(params: &Vec<(String, String)>) -> (r: String)
    ensures
        r@ == requested_root(params_view(params@)),
{
    match find_param(params, "path") {
        Some(v) => v,
        None => owned("."),
    }
}

fn ok_json(body: String) -> (r: HttpResponse)
    ensures
        r@ == (ResponseView { status: 200, content_type: json_type(), body: body@ }),
{
    HttpResponse { status: 200, content_type: "application/json; charset=utf-8", body }
}

/// Decides how to answer an API request with this path and query string.
pub fn plan_api(path: &str, query: &str, d: Dialect) -> (r: ApiPlan)
    ensures
        r@ == api_plan(path@, query@, d),
{
    let p = chars_of(path);
    let params = parse_query_with(query, d);
    if eq_lit(p.as_slice(), "/api/health") {
        ApiPlan::Respond(ok_json(owned("{\"status\":\"ok\"}")))
    } else if eq_lit(p.as_slice(), "/api/scan") {
        ApiPlan::Scan(root_of(&params), GraphAnswer::Scan)
    } else if eq_lit(p.as_slice(), "/api/check") {
        ApiPlan::Scan(root_of(&params), GraphAnswer::Check)
    } else if eq_lit(p.as_slice(), "/api/metrics") {
        ApiPlan::Scan(root_of(&params), GraphAnswer::Metrics)
    } else if eq_lit(p.as_slice(), "/api/rules") {
        let rules = default_rules();
        ApiPlan::Respond(ok_json(rules_to_json(rules.as_slice())))
    } else if eq_lit(p.as_slice(), "/api/languages") {
        ApiPlan::Respond(ok_json(languages_to_json()))
    } else if eq_lit(p.as_slice(), "/api/diagram") {
        let format = match find_param(&params, "format") {
            Some(v) => v,
            None => owned("svg"),
        };
        if !is_format(format.as_str()) {
            let mut out: Vec<char> = Vec::new();
            push_str(&mut out, "unsupported diagram format '");
            let fv = chars_of(format.as_str());
            push_all(&mut out, fv.as_slice());
            push_str(&mut out, "'");
            ApiPlan::Respond(error_response(string_of(out.as_slice())))
        } else {
            let f = diagram_format(format.as_str());
            ApiPlan::Scan(root_of(&params), GraphAnswer::Diagram(f))
        }
    } else {
        ApiPlan::Respond(error_response(owned("unknown API route")))
    }
}

/// The answer computed from a scanned graph; of the metrics, what
/// `metrics_of` says of the record shown.
pub open spec fn graph_answer(a: GraphAnswer, g: Graph, r: ResponseView) -> bool {
    &&& r.status == 200
    &&& match a {
        GraphAnswer::Scan => r.content_type == json_type() && r.body == graph_json(g),
        GraphAnswer::Check => r.content_type == json_type() && r.body == violations_json(
            dedup_violations(sort_violations(all_hits(g.nodes@, g.edges@, default_rule_views()))),
        ),
        GraphAnswer::Metrics => r.content_type == json_type() && exists|m: crate::metrics::GraphMetrics|
            metrics_of(g, m) && r.body == #[trigger] metrics_json(m),
        GraphAnswer::Diagram(f) => r.content_type == diagram_type(f) && r.body == diagram_text(f, g),
    }
}

/// Answers an API request from the graph of the scanned repository.
pub fn answer_with_graph(a: GraphAnswer, graph: &Graph) -> (r: HttpResponse)
    requires
        answerable(a, *graph),
    ensures
        graph_answer(a, *graph, r@),
{
    match a {
        GraphAnswer::Scan => ok_json(graph.to_json()),
        GraphAnswer::Check => {
            let v = check_graph(graph);
            ok_json(violations_to_json(v.as_slice()))
        },
        GraphAnswer::Metrics => {
            let m = compute_metrics(graph);
            let r = ok_json(metrics_to_json(&m));
            assert(metrics_of(*graph, m) && r@.body == metrics_json(m));
            r
        },
        GraphAnswer::Diagram(f) => {
            let body = render_diagram(f, graph);
            HttpResponse { status: 200, content_type: diagram_content_type(f), body }
        },
    }
}

/// The message of a failed repository scan.
pub fn scan_failure(root: &str, error: &str) -> (r: String)
    ensures
        r@ == "failed to scan '"@ + root@ + "': "@ + error@,
{
    let mut out: Vec<char> = Vec::new();
    push_str(&mut out, "failed to scan '");
    push_str(&mut out, root);
    push_str(&mut out, "': ");
    push_str(&mut out, error);
    assert(out@ =~= "failed to scan '"@ + root@ + "': "@ + error@);
    string_of(out.as_slice())
}

/// Whether a graph can be answered with: the diagram layout's arithmetic
/// bounds a diagram, the degree counts bound the metrics.
pub open spec fn answerable(a: GraphAnswer, g: Graph) -> bool {
    match a {
        GraphAnswer::Diagram(f) => renderable(f, g),
        GraphAnswer::Metrics => g.edges@.len() <= usize::MAX / 2,
        _ => true,
    }
}

/// Whether a graph can be answered with.
pub fn can_answer(a: GraphAnswer, graph: &Graph) -> (r: bool)
    ensures
        r == answerable(a, *graph),
{
    match a {
        GraphAnswer::Diagram(f) => can_render(f, graph),
        GraphAnswer::Metrics => graph.edges.len() <= usize::MAX / 2,
        _ => true,
    }
}

} // verus!
