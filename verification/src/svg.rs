//! The self-contained SVG rendering of a graph's diagram nodes and edges.
use crate::diagram::{coord_limit, diagram_layout, diagram_positions, node_limit, positions_bounded};
use crate::graph::{members_of, Graph};
use crate::keymap::{has_key, key_view, lemma_key_view_index, value_of, KeyMap};
use crate::model::{edge_kind_name, node_kind_name, Edge, EdgeKind, Member, MemberKind, Node, NodeKind};
use crate::render::{decimal, push_decimal};
use crate::strs::split_on;
use crate::text::{chars_of, push_all, push_str, string_of};
use vstd::prelude::*;

verus! {

broadcast use vstd::string::group_string_axioms;

/// How one character is written in XML text or an attribute value.
pub open spec fn xml_char(c: char) -> Seq<char> {
    if c == '&' {
        "&amp;"@
    } else if c == '<' {
        "&lt;"@
    } else if c == '>' {
        "&gt;"@
    } else if c == '"' {
        "&quot;"@
    } else {
        seq![c]
    }
}

/// A string with `&`, `<`, `>` and `"` replaced by their XML entities.
pub open spec fn xml_escape(s: Seq<char>) -> Seq<char>
    decreases s.len(),
{
    if s.len() == 0 {
        Seq::empty()
    } else {
        xml_escape(s.drop_last()) + xml_char(s.last())
    }
}

/// Appends the XML-escaped form of `s`.
pub fn push_xml_escaped(out: &mut Vec<char>, s: &[char])
    ensures
        final(out)@ == old(out)@ + xml_escape(s@),
{
    let ghost start = out@;
    let mut i: usize = 0;
    while i < s.len()
        invariant
            i <= s@.len(),
            out@ == start + xml_escape(s@.take(i as int)),
        decreases s.len() - i,
    {
        let ghost before = out@;
        let c = s[i];
        if c == '&' {
            push_str(out, "&amp;");
        } else if c == '<' {
            push_str(out, "&lt;");
        } else if c == '>' {
            push_str(out, "&gt;");
        } else if c == '"' {
            push_str(out, "&quot;");
        } else {
            out.push(c);
        }
        proof {
            let t = s@.take(i + 1);
            assert(t.drop_last() =~= s@.take(i as int));
            assert(t.last() == c);
            assert(out@ =~= before + xml_char(c));
        }
        i += 1;
    }
    assert(s@.take(s@.len() as int) =~= s@);
}

/// Escapes `&`, `<`, `>` and `"` for XML.
pub fn escape_xml(value: &str) -> (r: String)
    ensures
        r@ == xml_escape(value@),
{
    let v = chars_of(value);
    let mut out: Vec<char> = Vec::new();
    push_xml_escaped(&mut out, v.as_slice());
    assert(out@ =~= xml_escape(value@));
    string_of(out.as_slice())
}

/// A path shortened to its last two segments, behind `.../`, when it has more than two.
pub open spec fn short_path_of(path: Seq<char>) -> Seq<char> {
    let parts = split_on(path, '/');
    if parts.len() <= 2 {
        path
    } else {
        ".../"@ + parts[parts.len() - 2] + "/"@ + parts[parts.len() - 1]
    }
}

/// Shortens a path to its last two segments.
pub fn short_path(path: &str) -> (r: String)
    ensures
        r@ == short_path_of(path@),
{
    let v = chars_of(path);
    let ghost s = v@;
    let mut parts: Vec<Vec<char>> = Vec::new();
    parts.push(Vec::new());
    proof {
        assert(split_on(s.take(0), '/') =~= seq![Seq::<char>::empty()]);
    }
    let mut i: usize = 0;
    while i < v.len()
        invariant
            s == v@,
            i <= s.len(),
            parts@.len() >= 1,
            parts@.map_values(|p: Vec<char>| p@) == split_on(s.take(i as int), '/'),
        decreases v.len() - i,
    {
        let ghost before = parts@.map_values(|p: Vec<char>| p@);
        proof {
            let t = s.take(i + 1);
            assert(t.drop_last() =~= s.take(i as int));
            assert(t.last() == s[i as int]);
        }
        if v[i] == '/' {
            parts.push(Vec::new());
            assert(parts@.map_values(|p: Vec<char>| p@) =~= before.push(Seq::empty()));
        } else {
            let mut last = parts.pop().unwrap();
            let ghost lv = last@;
            last.push(v[i]);
            parts.push(last);
            assert(lv == before.last());
            assert(parts@.map_values(|p: Vec<char>| p@) =~= before.update(before.len() - 1, before.last().push(s[i as int])));
        }
        i += 1;
    }
    assert(s.take(s.len() as int) =~= s);
    let n = parts.len();
    proof {
        let pv = parts@.map_values(|p: Vec<char>| p@);
        assert(pv == split_on(path@, '/'));
        assert(pv.len() == n);
    }
    if n <= 2 {
        return crate::text::owned(path);
    }
    let mut out: Vec<char> = Vec::new();
    push_str(&mut out, ".../");
    push_all(&mut out, parts[n - 2].as_slice());
    push_str(&mut out, "/");
    push_all(&mut out, parts[n - 1].as_slice());
    proof {
        let pv = parts@.map_values(|p: Vec<char>| p@);
        assert(pv[n - 2] == parts@[n - 2]@);
        assert(pv[n - 1] == parts@[n - 1]@);
        assert(pv == split_on(path@, '/'));
        assert(out@ =~= ".../"@ + pv[n - 2] + "/"@ + pv[n - 1]);
        assert(out@ =~= short_path_of(path@));
    }
    string_of(out.as_slice())
}


/// The line under a node's name: its layer in guillemets, else its shortened
/// path, else nothing.
pub open spec fn subtitle_of(n: Node) -> Seq<char> {
    match n.layer {
        Some(l) => "«"@ + l@ + "»"@,
        None => if n.path@.len() == 0 {
            Seq::empty()
        } else {
            short_path_of(n.path@)
        },
    }
}

/// The number of member lines a node box shows: at most four.
pub open spec fn visible_count(members: Seq<(Seq<char>, Vec<Member>)>, id: Seq<char>) -> nat {
    let n = members_of(members, id).len();
    if n < 4 {
        n
    } else {
        4
    }
}

/// The height of a node box: a base of 56, 16 per shown member, 8 of padding when any are shown.
pub open spec fn node_height_of(members: Seq<(Seq<char>, Vec<Member>)>, id: Seq<char>) -> nat {
    let c = visible_count(members, id);
    56 + c * 16 + if c > 0 {
        8nat
    } else {
        0nat
    }
}

/// The height of the box drawn for `id`.
pub fn node_height(graph: &Graph, id: &str) -> (r: usize)
    ensures
        r == node_height_of(graph.members@, id@),
{
    let count: usize = match graph.members.get(id) {
        Some(m) => if m.len() < 4 {
            m.len()
        } else {
            4
        },
        None => 0,
    };
    56 + count * 16 + if count > 0 {
        8
    } else {
        0
    }
}

/// The stroke colour of an edge kind.
pub open spec fn edge_color(k: EdgeKind) -> Seq<char> {
    match k {
        EdgeKind::Imports => "#637083"@,
        EdgeKind::Extends => "#1f6feb"@,
        EdgeKind::Implements => "#8957e5"@,
        _ => "#bf3989"@,
    }
}

/// The arrow marker of an edge kind.
pub open spec fn edge_marker(k: EdgeKind) -> Seq<char> {
    match k {
        EdgeKind::Imports => "apex-arrow-imports"@,
        EdgeKind::Extends => "apex-arrow-extends"@,
        EdgeKind::Implements => "apex-arrow-implements"@,
        _ => "apex-arrow-relates"@,
    }
}

/// The dash attribute of an edge kind (empty for solid lines).
pub open spec fn edge_dash(k: EdgeKind) -> Seq<char> {
    match k {
        EdgeKind::Imports => " stroke-dasharray=\"4 3\""@,
        EdgeKind::Implements => " stroke-dasharray=\"6 3\""@,
        _ => Seq::empty(),
    }
}

/// The start of an edge path: its kind and its two end points.
pub open spec fn edge_head(k: EdgeKind, x1: nat, y1: nat, x2: nat, y2: nat) -> Seq<char> {
    "<path class=\"apex-edge apex-edge-"@ + edge_kind_name(k) + "\" d=\"M"@ + decimal(x1) + ","@ + decimal(y1)
        + " L"@ + decimal(x2) + ","@ + decimal(y2)
}

/// The end of an edge path: its stroke, dashes and arrow.
pub open spec fn edge_tail(k: EdgeKind) -> Seq<char> {
    "\" fill=\"none\" stroke=\""@ + edge_color(k) + "\" stroke-width=\"1.6\""@ + edge_dash(k) + " marker-end=\"url(#"@
        + edge_marker(k) + ")\"/>"@
}

/// The SVG path drawn for an edge: none for containment edges or edges with
/// an end that has no position; otherwise a line between the box centres.
pub open spec fn edge_svg(g: Graph, pos: Seq<(Seq<char>, (usize, usize))>, e: Edge) -> Seq<char> {
    if e.kind == EdgeKind::Contains || !has_key(pos, e.from@) || !has_key(pos, e.to@) {
        Seq::empty()
    } else {
        let a = value_of(pos, e.from@);
        let b = value_of(pos, e.to@);
        edge_head(
            e.kind,
            (a.0 + 84) as nat,
            (a.1 + node_height_of(g.members@, e.from@) / 2) as nat,
            (b.0 + 84) as nat,
            (b.1 + node_height_of(g.members@, e.to@) / 2) as nat,
        ) + edge_tail(e.kind)
    }
}

fn push_edge_head(out: &mut Vec<char>, k: EdgeKind, x1: usize, y1: usize, x2: usize, y2: usize)
    ensures
        final(out)@ == old(out)@ + edge_head(k, x1 as nat, y1 as nat, x2 as nat, y2 as nat),
{
    let ghost start = out@;
    push_str(out, "<path class=\"apex-edge apex-edge-");
    push_str(out, k.as_str());
    push_str(out, "\" d=\"M");
    push_decimal(out, x1);
    push_str(out, ",");
    push_decimal(out, y1);
    push_str(out, " L");
    push_decimal(out, x2);
    push_str(out, ",");
    push_decimal(out, y2);
    assert(out@ =~= start + edge_head(k, x1 as nat, y1 as nat, x2 as nat, y2 as nat));
}

fn push_edge_tail(out: &mut Vec<char>, k: EdgeKind)
    ensures
        final(out)@ == old(out)@ + edge_tail(k),
{
    let ghost start = out@;
    let (color, marker, dash): (&str, &str, &str) = match k {
        EdgeKind::Imports => ("#637083", "apex-arrow-imports", " stroke-dasharray=\"4 3\""),
        EdgeKind::Extends => ("#1f6feb", "apex-arrow-extends", ""),
        EdgeKind::Implements => ("#8957e5", "apex-arrow-implements", " stroke-dasharray=\"6 3\""),
        _ => ("#bf3989", "apex-arrow-relates", ""),
    };
    proof {
        reveal_strlit("");
    }
    assert(color@ == edge_color(k) && marker@ == edge_marker(k) && dash@ == edge_dash(k));
    push_str(out, "\" fill=\"none\" stroke=\"");
    push_str(out, color);
    push_str(out, "\" stroke-width=\"1.6\"");
    push_str(out, dash);
    push_str(out, " marker-end=\"url(#");
    push_str(out, marker);
    push_str(out, ")\"/>");
    assert(out@ =~= start + edge_tail(k));
}

fn push_edge_svg(out: &mut Vec<char>, graph: &Graph, layout: &KeyMap<(usize, usize)>, e: &Edge)
    requires
        positions_bounded(layout@),
    ensures
        final(out)@ == old(out)@ + edge_svg(*graph, layout@, *e),
{
    if e.kind == EdgeKind::Contains {
        assert(edge_svg(*graph, layout@, *e) =~= Seq::<char>::empty());
        assert(out@ =~= old(out)@ + edge_svg(*graph, layout@, *e));
        return;
    }
    let (a, b) = match (layout.get(e.from.as_str()), layout.get(e.to.as_str())) {
        (Some(a), Some(b)) => (*a, *b),
        _ => {
            assert(edge_svg(*graph, layout@, *e) =~= Seq::<char>::empty());
            assert(out@ =~= old(out)@ + edge_svg(*graph, layout@, *e));
            return;
        },
    };
    let ghost start = out@;
    let hf = node_height(graph, e.from.as_str());
    let ht = node_height(graph, e.to.as_str());
    push_edge_head(out, e.kind, a.0 + 84, a.1 + hf / 2, b.0 + 84, b.1 + ht / 2);
    push_edge_tail(out, e.kind);
    assert(out@ =~= start + edge_svg(*graph, layout@, *e));
}

/// The paths of the edges, in order.
pub open spec fn edges_svg(g: Graph, pos: Seq<(Seq<char>, (usize, usize))>, es: Seq<Edge>) -> Seq<char>
    decreases es.len(),
{
    if es.len() == 0 {
        Seq::empty()
    } else {
        edges_svg(g, pos, es.drop_last()) + edge_svg(g, pos, es.last())
    }
}


/// The fill colour of a node kind.
pub open spec fn node_fill(k: NodeKind) -> Seq<char> {
    match k {
        NodeKind::Entity => "#fff7ec"@,
        NodeKind::Type => "#f7fbff"@,
        NodeKind::File => "#f6f8fa"@,
    }
}

/// The stroke colour of a node kind.
pub open spec fn node_stroke(k: NodeKind) -> Seq<char> {
    match k {
        NodeKind::Entity => "#bf8700"@,
        NodeKind::Type => "#1f6feb"@,
        NodeKind::File => "#57606a"@,
    }
}

/// The opening of a node group.
pub open spec fn node_open(n: Node) -> Seq<char> {
    "<g class=\"apex-node apex-node-"@ + node_kind_name(n.kind) + "\" tabindex=\"0\" aria-label=\""@ + xml_escape(n.name@)
        + "\">"@
}

/// A node's box.
pub open spec fn node_rect(k: NodeKind, x: nat, y: nat, h: nat) -> Seq<char> {
    "<rect x=\""@ + decimal(x) + "\" y=\""@ + decimal(y) + "\" width=\"168\" height=\""@ + decimal(h) + "\" rx=\"8\" fill=\""@
        + node_fill(k) + "\" stroke=\""@ + node_stroke(k) + "\" stroke-width=\"1.4\"/>"@
}

/// A node's header band.
pub open spec fn node_band(k: NodeKind, x: nat, y: nat) -> Seq<char> {
    "<rect x=\""@ + decimal(x) + "\" y=\""@ + decimal(y) + "\" width=\"168\" height=\"26\" rx=\"8\" fill=\""@ + node_stroke(k)
        + "\" fill-opacity=\"0.12\" stroke=\"none\"/>"@
}

/// The opening of a node group, its box and its header band.
pub open spec fn node_box(n: Node, x: nat, y: nat, h: nat) -> Seq<char> {
    node_open(n) + node_rect(n.kind, x, y, h) + node_band(n.kind, x, y)
}

/// A node's name, centred in its header.
pub open spec fn node_title(n: Node, x: nat, y: nat) -> Seq<char> {
    "<text x=\""@ + decimal(x + 84) + "\" y=\""@ + decimal(y + 17)
        + "\" text-anchor=\"middle\" font-family=\"system-ui,sans-serif\" font-size=\"13\" font-weight=\"600\" fill=\"#1f2328\">"@
        + xml_escape(n.name@) + "</text>"@
}

/// A node's subtitle line, when it has one.
pub open spec fn subtitle_svg(x: nat, y: nat, sub: Seq<char>) -> Seq<char> {
    if sub.len() == 0 {
        Seq::empty()
    } else {
        "<text x=\""@ + decimal(x + 84) + "\" y=\""@ + decimal(y + 38)
            + "\" text-anchor=\"middle\" font-family=\"system-ui,sans-serif\" font-size=\"10\" fill=\"#57606a\">"@
            + xml_escape(sub) + "</text>"@
    }
}

/// What follows a member's name: `()` for methods.
pub open spec fn member_suffix(k: MemberKind) -> Seq<char> {
    match k {
        MemberKind::Field => Seq::empty(),
        MemberKind::Method => "()"@,
    }
}

/// The `i`-th member line of a node box.
pub open spec fn member_line(x: nat, y: nat, i: nat, m: Member) -> Seq<char> {
    "<text x=\""@ + decimal(x + 10) + "\" y=\""@ + decimal(y + 56 + i * 16)
        + "\" font-family=\"ui-monospace,monospace\" font-size=\"11\" fill=\"#1f2328\">"@ + xml_escape(
        "+"@ + m.name@ + member_suffix(m.kind),
    ) + "</text>"@
}

/// The first `n` member lines.
pub open spec fn member_lines(x: nat, y: nat, ms: Seq<Member>, n: nat) -> Seq<char>
    decreases n,
{
    if n == 0 {
        Seq::empty()
    } else {
        member_lines(x, y, ms, (n - 1) as nat) + member_line(x, y, (n - 1) as nat, ms[n - 1])
    }
}

/// The line counting the members not shown, when some are hidden.
pub open spec fn more_line(x: nat, y: nat, total: nat, shown: nat) -> Seq<char> {
    if total > shown {
        "<text x=\""@ + decimal(x + 10) + "\" y=\""@ + decimal(y + 56 + shown * 16)
            + "\" font-family=\"system-ui,sans-serif\" font-size=\"10\" fill=\"#57606a\">"@ + xml_escape(
            "…(+"@ + decimal((total - shown) as nat) + " more)"@,
        ) + "</text>"@
    } else {
        Seq::empty()
    }
}

/// A node's box, name and subtitle at `(x, y)`.
pub open spec fn node_top(g: Graph, n: Node, x: nat, y: nat) -> Seq<char> {
    node_box(n, x, y, node_height_of(g.members@, n.id@)) + node_title(n, x, y) + subtitle_svg(x, y, subtitle_of(n))
}

/// A node's member lines and the closing of its group.
pub open spec fn node_bottom(g: Graph, n: Node, x: nat, y: nat) -> Seq<char> {
    let ms = members_of(g.members@, n.id@);
    let shown = visible_count(g.members@, n.id@);
    member_lines(x, y, ms, shown) + more_line(x, y, ms.len(), shown) + "</g>"@
}

/// The SVG group drawn for a node: none when it has no position.
pub open spec fn node_svg(g: Graph, pos: Seq<(Seq<char>, (usize, usize))>, n: Node) -> Seq<char> {
    if !has_key(pos, n.id@) {
        Seq::empty()
    } else {
        let p = value_of(pos, n.id@);
        node_top(g, n, p.0 as nat, p.1 as nat) + node_bottom(g, n, p.0 as nat, p.1 as nat)
    }
}

/// The groups of the nodes, in id order.
pub open spec fn nodes_svg(g: Graph, pos: Seq<(Seq<char>, (usize, usize))>, ns: Seq<(Seq<char>, Node)>) -> Seq<char>
    decreases ns.len(),
{
    if ns.len() == 0 {
        Seq::empty()
    } else {
        nodes_svg(g, pos, ns.drop_last()) + node_svg(g, pos, ns.last().1)
    }
}

fn push_node_open(out: &mut Vec<char>, n: &Node)
    ensures
        final(out)@ == old(out)@ + node_open(*n),
{
    let ghost start = out@;
    let name = chars_of(n.name.as_str());
    push_str(out, "<g class=\"apex-node apex-node-");
    push_str(out, n.kind.as_str());
    push_str(out, "\" tabindex=\"0\" aria-label=\"");
    push_xml_escaped(out, name.as_slice());
    push_str(out, "\">");
    assert(out@ =~= start + node_open(*n));
}

fn node_colors(k: NodeKind) -> (r: (&'static str, &'static str))
    ensures
        r.0@ == node_fill(k),
        r.1@ == node_stroke(k),
{
    match k {
        NodeKind::Entity => ("#fff7ec", "#bf8700"),
        NodeKind::Type => ("#f7fbff", "#1f6feb"),
        NodeKind::File => ("#f6f8fa", "#57606a"),
    }
}

fn push_node_rect(out: &mut Vec<char>, k: NodeKind, x: usize, y: usize, h: usize)
    ensures
        final(out)@ == old(out)@ + node_rect(k, x as nat, y as nat, h as nat),
{
    let ghost start = out@;
    let (fill, stroke) = node_colors(k);
    push_str(out, "<rect x=\"");
    push_decimal(out, x);
    push_str(out, "\" y=\"");
    push_decimal(out, y);
    push_str(out, "\" width=\"168\" height=\"");
    push_decimal(out, h);
    push_str(out, "\" rx=\"8\" fill=\"");
    push_str(out, fill);
    push_str(out, "\" stroke=\"");
    push_str(out, stroke);
    push_str(out, "\" stroke-width=\"1.4\"/>");
    assert(out@ =~= start + node_rect(k, x as nat, y as nat, h as nat));
}

fn push_node_band(out: &mut Vec<char>, k: NodeKind, x: usize, y: usize)
    ensures
        final(out)@ == old(out)@ + node_band(k, x as nat, y as nat),
{
    let ghost start = out@;
    let (_fill, stroke) = node_colors(k);
    push_str(out, "<rect x=\"");
    push_decimal(out, x);
    push_str(out, "\" y=\"");
    push_decimal(out, y);
    push_str(out, "\" width=\"168\" height=\"26\" rx=\"8\" fill=\"");
    push_str(out, stroke);
    push_str(out, "\" fill-opacity=\"0.12\" stroke=\"none\"/>");
    assert(out@ =~= start + node_band(k, x as nat, y as nat));
}

fn push_node_title(out: &mut Vec<char>, n: &Node, x: usize, y: usize)
    requires
        x <= coord_limit(),
        y <= coord_limit(),
    ensures
        final(out)@ == old(out)@ + node_title(*n, x as nat, y as nat),
{
    let ghost start = out@;
    let name = chars_of(n.name.as_str());
    push_str(out, "<text x=\"");
    push_decimal(out, x + 84);
    push_str(out, "\" y=\"");
    push_decimal(out, y + 17);
    push_str(out, "\" text-anchor=\"middle\" font-family=\"system-ui,sans-serif\" font-size=\"13\" font-weight=\"600\" fill=\"#1f2328\">");
    push_xml_escaped(out, name.as_slice());
    push_str(out, "</text>");
    assert(out@ =~= start + node_title(*n, x as nat, y as nat));
}

fn subtitle(n: &Node) -> (r: Vec<char>)
    ensures
        r@ == subtitle_of(*n),
{
    match &n.layer {
        Some(l) => {
            let mut out: Vec<char> = Vec::new();
            push_str(&mut out, "«");
            push_str(&mut out, l.as_str());
            push_str(&mut out, "»");
            assert(out@ =~= subtitle_of(*n));
            out
        },
        None => {
            let path = chars_of(n.path.as_str());
            if path.len() == 0 {
                let out: Vec<char> = Vec::new();
                assert(out@ =~= subtitle_of(*n));
                out
            } else {
                let sp = short_path(n.path.as_str());
                chars_of(sp.as_str())
            }
        },
    }
}

fn push_subtitle(out: &mut Vec<char>, x: usize, y: usize, sub: &Vec<char>)
    requires
        x <= coord_limit(),
        y <= coord_limit(),
    ensures
        final(out)@ == old(out)@ + subtitle_svg(x as nat, y as nat, sub@),
{
    let ghost start = out@;
    if sub.len() == 0 {
        assert(out@ =~= start + subtitle_svg(x as nat, y as nat, sub@));
        return;
    }
    push_str(out, "<text x=\"");
    push_decimal(out, x + 84);
    push_str(out, "\" y=\"");
    push_decimal(out, y + 38);
    push_str(out, "\" text-anchor=\"middle\" font-family=\"system-ui,sans-serif\" font-size=\"10\" fill=\"#57606a\">");
    push_xml_escaped(out, sub.as_slice());
    push_str(out, "</text>");
    assert(out@ =~= start + subtitle_svg(x as nat, y as nat, sub@));
}

fn push_member_line(out: &mut Vec<char>, x: usize, y: usize, i: usize, m: &Member)
    requires
        x <= coord_limit(),
        y <= coord_limit(),
        i < 4,
    ensures
        final(out)@ == old(out)@ + member_line(x as nat, y as nat, i as nat, *m),
{
    let ghost start = out@;
    let mut text: Vec<char> = Vec::new();
    push_str(&mut text, "+");
    push_str(&mut text, m.name.as_str());
    match m.kind {
        MemberKind::Field => {},
        MemberKind::Method => {
            push_str(&mut text, "()");
        },
    }
    assert(text@ =~= "+"@ + m.name@ + member_suffix(m.kind));
    push_str(out, "<text x=\"");
    push_decimal(out, x + 10);
    push_str(out, "\" y=\"");
    push_decimal(out, y + 56 + i * 16);
    push_str(out, "\" font-family=\"ui-monospace,monospace\" font-size=\"11\" fill=\"#1f2328\">");
    push_xml_escaped(out, text.as_slice());
    push_str(out, "</text>");
    assert(out@ =~= start + member_line(x as nat, y as nat, i as nat, *m));
}

fn push_more_line(out: &mut Vec<char>, x: usize, y: usize, total: usize, shown: usize)
    requires
        x <= coord_limit(),
        y <= coord_limit(),
        shown <= 4,
    ensures
        final(out)@ == old(out)@ + more_line(x as nat, y as nat, total as nat, shown as nat),
{
    let ghost start = out@;
    if total <= shown {
        assert(out@ =~= start + more_line(x as nat, y as nat, total as nat, shown as nat));
        return;
    }
    let mut text: Vec<char> = Vec::new();
    push_str(&mut text, "…(+");
    push_decimal(&mut text, total - shown);
    push_str(&mut text, " more)");
    push_str(out, "<text x=\"");
    push_decimal(out, x + 10);
    push_str(out, "\" y=\"");
    push_decimal(out, y + 56 + shown * 16);
    push_str(out, "\" font-family=\"system-ui,sans-serif\" font-size=\"10\" fill=\"#57606a\">");
    push_xml_escaped(out, text.as_slice());
    push_str(out, "</text>");
    assert(out@ =~= start + more_line(x as nat, y as nat, total as nat, shown as nat));
}


fn push_member_lines(out: &mut Vec<char>, x: usize, y: usize, list: &Vec<Member>, shown: usize)
    requires
        x <= coord_limit(),
        y <= coord_limit(),
        shown <= 4,
        shown <= list@.len(),
    ensures
        final(out)@ == old(out)@ + member_lines(x as nat, y as nat, list@, shown as nat),
{
    let ghost start = out@;
    let mut i: usize = 0;
    while i < shown
        invariant
            x <= coord_limit(),
            y <= coord_limit(),
            shown <= 4,
            shown <= list@.len(),
            i <= shown,
            out@ == start + member_lines(x as nat, y as nat, list@, i as nat),
        decreases shown - i,
    {
        let ghost before = out@;
        push_member_line(out, x, y, i, &list[i]);
        assert(out@ =~= before + member_line(x as nat, y as nat, i as nat, list@[i as int]));
        i += 1;
    }
}

fn push_node_top(out: &mut Vec<char>, graph: &Graph, n: &Node, x: usize, y: usize)
    requires
        x <= coord_limit(),
        y <= coord_limit(),
    ensures
        final(out)@ == old(out)@ + node_top(*graph, *n, x as nat, y as nat),
{
    let ghost start = out@;
    let h = node_height(graph, n.id.as_str());
    push_node_open(out, n);
    push_node_rect(out, n.kind, x, y, h);
    push_node_band(out, n.kind, x, y);
    push_node_title(out, n, x, y);
    let sub = subtitle(n);
    push_subtitle(out, x, y, &sub);
    assert(out@ =~= start + node_top(*graph, *n, x as nat, y as nat));
}

fn push_node_bottom(out: &mut Vec<char>, graph: &Graph, n: &Node, x: usize, y: usize)
    requires
        x <= coord_limit(),
        y <= coord_limit(),
    ensures
        final(out)@ == old(out)@ + node_bottom(*graph, *n, x as nat, y as nat),
{
    let ghost start = out@;
    let empty: Vec<Member> = Vec::new();
    let list: &Vec<Member> = match graph.members.get(n.id.as_str()) {
        Some(l) => l,
        None => &empty,
    };
    assert(list@ == members_of(graph.members@, n.id@));
    let total = list.len();
    let shown = if total < 4 {
        total
    } else {
        4
    };
    push_member_lines(out, x, y, list, shown);
    push_more_line(out, x, y, total, shown);
    push_str(out, "</g>");
    assert(out@ =~= start + node_bottom(*graph, *n, x as nat, y as nat));
}

fn push_node_svg(out: &mut Vec<char>, graph: &Graph, layout: &KeyMap<(usize, usize)>, n: &Node)
    requires
        positions_bounded(layout@),
    ensures
        final(out)@ == old(out)@ + node_svg(*graph, layout@, *n),
{
    let ghost start = out@;
    match layout.get(n.id.as_str()) {
        Some(p) => {
            let (x, y) = *p;
            push_node_top(out, graph, n, x, y);
            push_node_bottom(out, graph, n, x, y);
            assert(out@ =~= start + node_svg(*graph, layout@, *n));
        },
        None => {
            assert(out@ =~= start + node_svg(*graph, layout@, *n));
        },
    }
}

/// The right edge of the widest placed box.
pub open spec fn max_right(pos: Seq<(Seq<char>, (usize, usize))>) -> nat
    decreases pos.len(),
{
    if pos.len() == 0 {
        0
    } else {
        let m = max_right(pos.drop_last());
        let v = (pos.last().1.0 + 168) as nat;
        if v > m {
            v
        } else {
            m
        }
    }
}

/// The bottom edge of the lowest placed box, taken as 120 tall.
pub open spec fn max_bottom(pos: Seq<(Seq<char>, (usize, usize))>) -> nat
    decreases pos.len(),
{
    if pos.len() == 0 {
        0
    } else {
        let m = max_bottom(pos.drop_last());
        let v = (pos.last().1.1 + 120) as nat;
        if v > m {
            v
        } else {
            m
        }
    }
}

/// The drawing's width: 40 past the widest box, at least 320.
pub open spec fn svg_width(pos: Seq<(Seq<char>, (usize, usize))>) -> nat {
    if max_right(pos) + 40 > 320 {
        max_right(pos) + 40
    } else {
        320
    }
}

/// The drawing's height: 40 below the lowest box, at least 200.
pub open spec fn svg_height(pos: Seq<(Seq<char>, (usize, usize))>) -> nat {
    if max_bottom(pos) + 40 > 200 {
        max_bottom(pos) + 40
    } else {
        200
    }
}

/// The opening `svg` element.
pub open spec fn svg_open(w: nat, h: nat) -> Seq<char> {
    "<svg xmlns=\"http://www.w3.org/2000/svg\" role=\"img\" aria-labelledby=\"apex-title\" viewBox=\"0 0 "@ + decimal(w)
        + " "@ + decimal(h) + "\" preserveAspectRatio=\"xMidYMid meet\" width=\"100%\" height=\"100%\">"@
}

/// The title, the arrow markers and the opening of the root group.
pub open spec fn svg_defs() -> Seq<char> {
    "<title id=\"apex-title\">Apex architecture diagram</title><defs><marker id=\"apex-arrow-imports\" viewBox=\"0 0 10 10\" refX=\"9\" refY=\"5\" markerWidth=\"7\" markerHeight=\"7\" orient=\"auto-start-reverse\"><path d=\"M0,0 L10,5 L0,10 z\" fill=\"#637083\"/></marker><marker id=\"apex-arrow-extends\" viewBox=\"0 0 10 10\" refX=\"9\" refY=\"5\" markerWidth=\"7\" markerHeight=\"7\" orient=\"auto-start-reverse\"><path d=\"M0,0 L10,5 L0,10 z\" fill=\"#1f6feb\"/></marker><marker id=\"apex-arrow-implements\" viewBox=\"0 0 10 10\" refX=\"9\" refY=\"5\" markerWidth=\"7\" markerHeight=\"7\" orient=\"auto-start-reverse\"><path d=\"M0,0 L10,5 L0,10 z\" fill=\"#8957e5\"/></marker><marker id=\"apex-arrow-relates\" viewBox=\"0 0 10 10\" refX=\"9\" refY=\"5\" markerWidth=\"7\" markerHeight=\"7\" orient=\"auto-start-reverse\"><path d=\"M0,0 L10,5 L0,10 z\" fill=\"#bf3989\"/></marker></defs><g class=\"apex-graph-root\">"@
}

/// The whole SVG document of a graph: edges first, then node boxes on top.
pub open spec fn svg_document(g: Graph) -> Seq<char> {
    let pos = diagram_positions(g.nodes@, g.edges@);
    svg_open(svg_width(pos), svg_height(pos)) + svg_defs() + edges_svg(g, pos, g.edges@) + nodes_svg(g, pos, g.nodes@)
        + "</g></svg>"@
}

fn extent(layout: &KeyMap<(usize, usize)>) -> (r: (usize, usize))
    requires
        positions_bounded(layout@),
    ensures
        r.0 == max_right(layout@),
        r.1 == max_bottom(layout@),
        r.0 <= coord_limit() + 168,
        r.1 <= coord_limit() + 120,
{
    let es = layout.entries();
    let mut mx: usize = 0;
    let mut my: usize = 0;
    let mut i: usize = 0;
    while i < es.len()
        invariant
            key_view(es@) == layout@,
            positions_bounded(layout@),
            i <= es@.len(),
            mx == max_right(layout@.take(i as int)),
            my == max_bottom(layout@.take(i as int)),
            mx <= coord_limit() + 168,
            my <= coord_limit() + 120,
        decreases es.len() - i,
    {
        proof {
            lemma_key_view_index(es@, i as int);
            let t = layout@.take(i + 1);
            assert(t.drop_last() =~= layout@.take(i as int));
            assert(t.last() == layout@[i as int]);
            assert(layout@[i as int].1 == es@[i as int].1);
        }
        let (x, y) = es[i].1;
        if x + 168 > mx {
            mx = x + 168;
        }
        if y + 120 > my {
            my = y + 120;
        }
        i += 1;
    }
    assert(layout@.take(es@.len() as int) =~= layout@);
    (mx, my)
}

/// Renders the diagram nodes and edges as a self-contained, zoomable SVG.
pub fn render_svg(graph: &Graph) -> (r: String)
    requires
        graph.nodes@.len() <= node_limit(),
    ensures
        r@ == svg_document(*graph),
{
    let layout = diagram_layout(graph);
    let ghost pos = layout@;
    let (mx, my) = extent(&layout);
    let width = if mx + 40 > 320 {
        mx + 40
    } else {
        320
    };
    let height = if my + 40 > 200 {
        my + 40
    } else {
        200
    };
    let mut out: Vec<char> = Vec::new();
    push_str(&mut out, "<svg xmlns=\"http://www.w3.org/2000/svg\" role=\"img\" aria-labelledby=\"apex-title\" viewBox=\"0 0 ");
    push_decimal(&mut out, width);
    push_str(&mut out, " ");
    push_decimal(&mut out, height);
    push_str(&mut out, "\" preserveAspectRatio=\"xMidYMid meet\" width=\"100%\" height=\"100%\">");
    assert(out@ =~= svg_open(svg_width(pos), svg_height(pos)));
    push_str(
        &mut out,
        "<title id=\"apex-title\">Apex architecture diagram</title><defs><marker id=\"apex-arrow-imports\" viewBox=\"0 0 10 10\" refX=\"9\" refY=\"5\" markerWidth=\"7\" markerHeight=\"7\" orient=\"auto-start-reverse\"><path d=\"M0,0 L10,5 L0,10 z\" fill=\"#637083\"/></marker><marker id=\"apex-arrow-extends\" viewBox=\"0 0 10 10\" refX=\"9\" refY=\"5\" markerWidth=\"7\" markerHeight=\"7\" orient=\"auto-start-reverse\"><path d=\"M0,0 L10,5 L0,10 z\" fill=\"#1f6feb\"/></marker><marker id=\"apex-arrow-implements\" viewBox=\"0 0 10 10\" refX=\"9\" refY=\"5\" markerWidth=\"7\" markerHeight=\"7\" orient=\"auto-start-reverse\"><path d=\"M0,0 L10,5 L0,10 z\" fill=\"#8957e5\"/></marker><marker id=\"apex-arrow-relates\" viewBox=\"0 0 10 10\" refX=\"9\" refY=\"5\" markerWidth=\"7\" markerHeight=\"7\" orient=\"auto-start-reverse\"><path d=\"M0,0 L10,5 L0,10 z\" fill=\"#bf3989\"/></marker></defs><g class=\"apex-graph-root\">",
    );
    let ghost head = out@;
    let mut i: usize = 0;
    while i < graph.edges.len()
        invariant
            i <= graph.edges@.len(),
            positions_bounded(layout@),
            pos == layout@,
            out@ == head + edges_svg(*graph, pos, graph.edges@.take(i as int)),
        decreases graph.edges.len() - i,
    {
        let ghost before = out@;
        push_edge_svg(&mut out, graph, &layout, &graph.edges[i]);
        proof {
            let t = graph.edges@.take(i + 1);
            assert(t.drop_last() =~= graph.edges@.take(i as int));
            assert(t.last() == graph.edges@[i as int]);
        }
        i += 1;
    }
    assert(graph.edges@.take(graph.edges@.len() as int) =~= graph.edges@);
    let ghost mid = out@;
    let es = graph.nodes.entries();
    let mut j: usize = 0;
    while j < es.len()
        invariant
            key_view(es@) == graph.nodes@,
            j <= es@.len(),
            positions_bounded(layout@),
            pos == layout@,
            out@ == mid + nodes_svg(*graph, pos, graph.nodes@.take(j as int)),
        decreases es.len() - j,
    {
        push_node_svg(&mut out, graph, &layout, &es[j].1);
        proof {
            lemma_key_view_index(es@, j as int);
            let t = graph.nodes@.take(j + 1);
            assert(t.drop_last() =~= graph.nodes@.take(j as int));
            assert(t.last().1 == es@[j as int].1);
        }
        j += 1;
    }
    assert(graph.nodes@.take(es@.len() as int) =~= graph.nodes@);
    push_str(&mut out, "</g></svg>");
    assert(out@ =~= svg_document(*graph));
    string_of(out.as_slice())
}

impl Graph {
    /// Serializes the graph into a self-contained zoomable SVG.
    pub fn to_svg(&self) -> (r: String)
        requires
            self.nodes@.len() <= node_limit(),
        ensures
            r@ == svg_document(*self),
    {
        render_svg(self)
    }
}

} // verus!
