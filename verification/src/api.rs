//! The JSON and HTML bodies that the servers answer with.
use crate::graph::Graph;
use crate::languages::{language_row, language_table, supported_languages};
use crate::model::{LanguageSupport, RuleDefinition, RuleView, Violation, ViolationView};
use crate::render::{decimal, graph_json, json_escape, layer_json, push_decimal, push_json_escaped};
use crate::rules::{rule_views, violation_views};
use crate::svg::svg_document;
use crate::text::{chars_of, push_all, push_str, string_of};
use vstd::prelude::*;

verus! {

broadcast use vstd::string::group_string_axioms;

/// A violation as a JSON object.
pub open spec fn violation_json(v: ViolationView) -> Seq<char> {
    "{\"rule_id\":\""@ + json_escape(v.rule_id) + "\",\"message\":\""@ + json_escape(v.message)
        + "\",\"subject\":\""@ + json_escape(v.subject) + "\"}"@
}

/// Violations as comma-separated JSON objects.
pub open spec fn violation_items(s: Seq<ViolationView>) -> Seq<char>
    decreases s.len(),
{
    if s.len() == 0 {
        Seq::empty()
    } else {
        violation_items(s.drop_last()) + (if s.len() > 1 { seq![','] } else { Seq::empty() }) + violation_json(s.last())
    }
}

/// Violations as a JSON array.
pub open spec fn violations_json(s: Seq<ViolationView>) -> Seq<char> {
    seq!['['] + violation_items(s) + seq![']']
}

fn push_violation(out: &mut Vec<char>, v: &Violation)
    ensures
        final(out)@ == old(out)@ + violation_json(v@),
{
    push_str(out, "{\"rule_id\":\"");
    push_json_escaped(out, v.rule_id.as_str());
    push_str(out, "\",\"message\":\"");
    push_json_escaped(out, v.message.as_str());
    push_str(out, "\",\"subject\":\"");
    push_json_escaped(out, v.subject.as_str());
    push_str(out, "\"}");
    assert(final(out)@ =~= old(out)@ + violation_json(v@));
}

/// Violations as a JSON array of `rule_id`, `message`, `subject` objects.
pub fn violations_to_json(violations: &[Violation]) -> (r: String)
    ensures
        r@ == violations_json(violation_views(violations@)),
{
    let ghost vs = violation_views(violations@);
    let mut out: Vec<char> = Vec::new();
    out.push('[');
    let mut i: usize = 0;
    assert(vs.take(0) =~= Seq::<ViolationView>::empty());
    while i < violations.len()
        invariant
            i <= violations@.len(),
            vs == violation_views(violations@),
            out@ == seq!['['] + violation_items(vs.take(i as int)),
        decreases violations.len() - i,
    {
        let ghost before = out@;
        assert(vs.take(i + 1).drop_last() =~= vs.take(i as int));
        assert(vs[i as int] == violations@[i as int]@);
        if i > 0 {
            out.push(',');
        }
        push_violation(&mut out, &violations[i]);
        assert(out@ =~= seq!['['] + violation_items(vs.take(i + 1)));
        i += 1;
    }
    out.push(']');
    assert(vs.take(vs.len() as int) =~= vs);
    assert(out@ =~= violations_json(vs));
    string_of(out.as_slice())
}

/// An optional string as a JSON string or `null`.
pub fn optional_json(value: Option<&str>) -> (r: String)
    ensures
        r@ == layer_json(
            match value {
                Some(v) => Some(v@),
                None => None,
            },
        ),
{
    match value {
        Some(v) => {
            let mut out: Vec<char> = Vec::new();
            out.push('"');
            push_json_escaped(&mut out, v);
            out.push('"');
            assert(out@ =~= seq!['"'] + json_escape(v@) + seq!['"']);
            string_of(out.as_slice())
        },
        None => crate::text::owned("null"),
    }
}

/// A boolean as JSON.
pub open spec fn bool_json(b: bool) -> Seq<char> {
    if b { "true"@ } else { "false"@ }
}

/// A rule as a JSON object.
pub open spec fn rule_json(r: RuleView) -> Seq<char> {
    "{\"id\":\""@ + json_escape(r.id) + "\",\"type\":\""@ + json_escape(r.rule_type) + "\",\"from\":"@
        + layer_json(r.from) + ",\"to\":"@ + layer_json(r.to) + ",\"enabled\":"@ + bool_json(r.enabled) + "}"@
}

/// Rules as comma-separated JSON objects.
pub open spec fn rule_items(s: Seq<RuleView>) -> Seq<char>
    decreases s.len(),
{
    if s.len() == 0 {
        Seq::empty()
    } else {
        rule_items(s.drop_last()) + (if s.len() > 1 { seq![','] } else { Seq::empty() }) + rule_json(s.last())
    }
}

/// Rules as a JSON array.
pub open spec fn rules_json(s: Seq<RuleView>) -> Seq<char> {
    seq!['['] + rule_items(s) + seq![']']
}

fn opt_str(o: &Option<String>) -> (r: Option<&str>)
    ensures
        match r {
            Some(v) => crate::model::opt_view(*o) == Some(v@),
            None => o is None,
        },
{
    match o {
        Some(s) => Some(s.as_str()),
        None => None,
    }
}

fn push_rule(out: &mut Vec<char>, r: &RuleDefinition)
    ensures
        final(out)@ == old(out)@ + rule_json(r@),
{
    push_str(out, "{\"id\":\"");
    push_json_escaped(out, r.id.as_str());
    push_str(out, "\",\"type\":\"");
    push_json_escaped(out, r.rule_type.as_str());
    push_str(out, "\",\"from\":");
    let f = optional_json(opt_str(&r.from));
    let fv = chars_of(f.as_str());
    push_all(out, fv.as_slice());
    push_str(out, ",\"to\":");
    let t = optional_json(opt_str(&r.to));
    let tv = chars_of(t.as_str());
    push_all(out, tv.as_slice());
    push_str(out, ",\"enabled\":");
    if r.enabled {
        push_str(out, "true");
    } else {
        push_str(out, "false");
    }
    push_str(out, "}");
    assert(final(out)@ =~= old(out)@ + rule_json(r@));
}

/// Rules as a JSON array of `id`, `type`, `from`, `to`, `enabled` objects.
pub fn rules_to_json(rules: &[RuleDefinition]) -> (r: String)
    ensures
        r@ == rules_json(rule_views(rules@)),
{
    let ghost rs = rule_views(rules@);
    let mut out: Vec<char> = Vec::new();
    out.push('[');
    let mut i: usize = 0;
    assert(rs.take(0) =~= Seq::<RuleView>::empty());
    while i < rules.len()
        invariant
            i <= rules@.len(),
            rs == rule_views(rules@),
            out@ == seq!['['] + rule_items(rs.take(i as int)),
        decreases rules.len() - i,
    {
        assert(rs.take(i + 1).drop_last() =~= rs.take(i as int));
        assert(rs[i as int] == rules@[i as int]@);
        if i > 0 {
            out.push(',');
        }
        push_rule(&mut out, &rules[i]);
        assert(out@ =~= seq!['['] + rule_items(rs.take(i + 1)));
        i += 1;
    }
    out.push(']');
    assert(rs.take(rs.len() as int) =~= rs);
    assert(out@ =~= rules_json(rs));
    string_of(out.as_slice())
}

/// File extensions as comma-separated JSON strings.
pub open spec fn extension_items(s: Seq<Seq<char>>) -> Seq<char>
    decreases s.len(),
{
    if s.len() == 0 {
        Seq::empty()
    } else {
        extension_items(s.drop_last()) + (if s.len() > 1 { seq![','] } else { Seq::empty() }) + seq!['"']
            + json_escape(s.last()) + seq!['"']
    }
}

/// A row of the language table as a JSON object.
pub open spec fn language_json(row: (Seq<char>, Seq<Seq<char>>, Seq<char>)) -> Seq<char> {
    "{\"name\":\""@ + json_escape(row.0) + "\",\"extensions\":["@ + extension_items(row.1) + "],\"extracts\":\""@
        + json_escape(row.2) + "\"}"@
}

/// Language rows as comma-separated JSON objects.
pub open spec fn language_items(s: Seq<(Seq<char>, Seq<Seq<char>>, Seq<char>)>) -> Seq<char>
    decreases s.len(),
{
    if s.len() == 0 {
        Seq::empty()
    } else {
        language_items(s.drop_last()) + (if s.len() > 1 { seq![','] } else { Seq::empty() }) + language_json(s.last())
    }
}

fn push_language(out: &mut Vec<char>, l: &LanguageSupport)
    ensures
        final(out)@ == old(out)@ + language_json(language_row(*l)),
{
    push_str(out, "{\"name\":\"");
    push_json_escaped(out, l.name);
    push_str(out, "\",\"extensions\":[");
    let ghost es = l.extensions@.map_values(|e: &str| e@);
    let ghost mid = out@;
    let mut i: usize = 0;
    assert(es.take(0) =~= Seq::<Seq<char>>::empty());
    while i < l.extensions.len()
        invariant
            i <= l.extensions@.len(),
            es == l.extensions@.map_values(|e: &str| e@),
            out@ == mid + extension_items(es.take(i as int)),
        decreases l.extensions.len() - i,
    {
        assert(es.take(i + 1).drop_last() =~= es.take(i as int));
        assert(es[i as int] == l.extensions@[i as int]@);
        if i > 0 {
            out.push(',');
        }
        out.push('"');
        push_json_escaped(out, l.extensions[i]);
        out.push('"');
        assert(out@ =~= mid + extension_items(es.take(i + 1)));
        i += 1;
    }
    assert(es.take(es.len() as int) =~= es);
    push_str(out, "],\"extracts\":\"");
    push_json_escaped(out, l.extracts);
    push_str(out, "\"}");
    assert(final(out)@ =~= old(out)@ + language_json(language_row(*l)));
}

/// The language table as a JSON array of `name`, `extensions`, `extracts` objects.
pub fn languages_to_json() -> (r: String)
    ensures
        r@ == seq!['['] + language_items(language_table()) + seq![']'],
{
    let langs = supported_languages();
    let ghost rows = langs@.map_values(|l: LanguageSupport| language_row(l));
    let mut out: Vec<char> = Vec::new();
    out.push('[');
    let mut i: usize = 0;
    assert(rows.take(0) =~= Seq::<(Seq<char>, Seq<Seq<char>>, Seq<char>)>::empty());
    while i < langs.len()
        invariant
            i <= langs@.len(),
            rows == langs@.map_values(|l: LanguageSupport| language_row(l)),
            out@ == seq!['['] + language_items(rows.take(i as int)),
        decreases langs.len() - i,
    {
        assert(rows.take(i + 1).drop_last() =~= rows.take(i as int));
        assert(rows[i as int] == language_row(langs@[i as int]));
        if i > 0 {
            out.push(',');
        }
        push_language(&mut out, &langs[i]);
        assert(out@ =~= seq!['['] + language_items(rows.take(i + 1)));
        i += 1;
    }
    out.push(']');
    assert(rows.take(rows.len() as int) =~= rows);
    string_of(out.as_slice())
}

/// The HTML escape of one character: `&`, `<` and `>` become entities.
pub open spec fn html_char(c: char) -> Seq<char> {
    if c == '&' {
        "&amp;"@
    } else if c == '<' {
        "&lt;"@
    } else if c == '>' {
        "&gt;"@
    } else {
        seq![c]
    }
}

/// `s` with `&`, `<` and `>` replaced by their entities.
pub open spec fn html_escape(s: Seq<char>) -> Seq<char>
    decreases s.len(),
{
    if s.len() == 0 {
        Seq::empty()
    } else {
        html_escape(s.drop_last()) + html_char(s.last())
    }
}

fn push_html_escaped(out: &mut Vec<char>, s: &[char])
    ensures
        final(out)@ == old(out)@ + html_escape(s@),
{
    let ghost start = out@;
    let mut i: usize = 0;
    while i < s.len()
        invariant
            i <= s@.len(),
            out@ == start + html_escape(s@.take(i as int)),
        decreases s.len() - i,
    {
        let ghost before = out@;
        let c = s[i];
        if c == '&' {
            push_str(out, "&amp;");
        } else if c == '<' {
            push_str(out, "&lt;");
        } else if c == '>' {
            push_str(out, "&gt;");
        } else {
            out.push(c);
        }
        proof {
            let t = s@.take(i + 1);
            assert(t.drop_last() =~= s@.take(i as int));
            assert(t.last() == c);
            assert(out@ =~= before + html_char(c));
        }
        i += 1;
    }
    assert(s@.take(s@.len() as int) =~= s@);
}

/// Escapes `&`, `<` and `>` for HTML text.
pub fn escape_html(value: &str) -> (r: String)
    ensures
        r@ == html_escape(value@),
{
    let v = chars_of(value);
    let mut out: Vec<char> = Vec::new();
    push_html_escaped(&mut out, v.as_slice());
    assert(out@ =~= html_escape(value@));
    string_of(out.as_slice())
}

/// The style sheet of the standalone diagram page.
pub open spec fn page_style() -> Seq<char> {
    "body{margin:0;font-family:Inter,system-ui,sans-serif;background:#0d1117;color:#e6edf3}main{padding:24px}header{margin-bottom:16px}.diagram{overflow:auto;background:#fff;border-radius:12px;padding:24px}svg{max-width:none}details{margin-top:16px}pre{overflow:auto;background:#161b22;padding:16px;border-radius:8px}"@
}

/// The standalone HTML page of a graph: counts, the SVG diagram and the
/// escaped JSON document.
pub open spec fn graph_page(g: Graph) -> Seq<char> {
    "<!doctype html><html lang=\"en\"><head><meta charset=\"utf-8\"><meta name=\"viewport\" content=\"width=device-width, initial-scale=1\"><title>Apex Diagram</title><style>"@
        + page_style() + "</style></head><body><main><header><h1>Apex Diagram</h1><p>"@
        + decimal(g.nodes@.len()) + " nodes · "@ + decimal(g.edges@.len()) + " edges</p></header><section class=\"diagram\">"@
        + svg_document(g) + "</section><details><summary>Graph JSON</summary><pre>"@ + html_escape(graph_json(g))
        + "</pre></details></main></body></html>"@
}

/// Renders a graph as a standalone HTML page.
pub fn graph_to_html(graph: &Graph) -> (r: String)
    requires
        graph.nodes@.len() <= crate::diagram::node_limit(),
    ensures
        r@ == graph_page(*graph),
{
    let mut out: Vec<char> = Vec::new();
    push_str(&mut out, "<!doctype html><html lang=\"en\"><head><meta charset=\"utf-8\"><meta name=\"viewport\" content=\"width=device-width, initial-scale=1\"><title>Apex Diagram</title><style>");
    push_str(&mut out, "body{margin:0;font-family:Inter,system-ui,sans-serif;background:#0d1117;color:#e6edf3}main{padding:24px}header{margin-bottom:16px}.diagram{overflow:auto;background:#fff;border-radius:12px;padding:24px}svg{max-width:none}details{margin-top:16px}pre{overflow:auto;background:#161b22;padding:16px;border-radius:8px}");
    push_str(&mut out, "</style></head><body><main><header><h1>Apex Diagram</h1><p>");
    let ghost a = out@;
    push_decimal(&mut out, graph.nodes.len());
    push_str(&mut out, " nodes · ");
    push_decimal(&mut out, graph.edges.len());
    push_str(&mut out, " edges</p></header><section class=\"diagram\">");
    let ghost b = out@;
    let svg = graph.to_svg();
    let sv = chars_of(svg.as_str());
    push_all(&mut out, sv.as_slice());
    push_str(&mut out, "</section><details><summary>Graph JSON</summary><pre>");
    let json = graph.to_json();
    let jv = chars_of(json.as_str());
    push_html_escaped(&mut out, jv.as_slice());
    push_str(&mut out, "</pre></details></main></body></html>");
    assert(out@ =~= graph_page(*graph));
    string_of(out.as_slice())
}

} // verus!
