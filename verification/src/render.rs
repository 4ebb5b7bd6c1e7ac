//! Text renderings of a graph: deterministic JSON, Mermaid class diagrams, and
//! the escaping and number formatting they rely on.
use crate::graph::{has_member, is_diagram_kind, members_of, Graph};
use crate::keymap::{has_key, key_view, lemma_has_key_at_rank, lemma_key_view_index, lemma_rank_bounds, lemma_unique_key, rank, sorted_keys, value_of, KeyMap};
use crate::model::{edge_kind_name, member_kind_name, node_kind_name, opt_view, Edge, EdgeKind, Member, MemberKind, Node, NodeKind};
use crate::text::{chars_of, is_alnum, is_ascii_alnum, push_all, push_str, string_of};
use vstd::prelude::*;

verus! {

broadcast use vstd::string::group_string_axioms;

/// The lower-case hexadecimal digit for `d` (below 16).
pub open spec fn hex_digit(d: u32) -> char {
    if d == 0 { '0' } else if d == 1 { '1' } else if d == 2 { '2' } else if d == 3 { '3' }
    else if d == 4 { '4' } else if d == 5 { '5' } else if d == 6 { '6' } else if d == 7 { '7' }
    else if d == 8 { '8' } else if d == 9 { '9' } else if d == 10 { 'a' } else if d == 11 { 'b' }
    else if d == 12 { 'c' } else if d == 13 { 'd' } else if d == 14 { 'e' } else { 'f' }
}

/// The decimal digit for `d` (below 10).
pub open spec fn dec_digit(d: nat) -> char {
    if d == 0 { '0' } else if d == 1 { '1' } else if d == 2 { '2' } else if d == 3 { '3' }
    else if d == 4 { '4' } else if d == 5 { '5' } else if d == 6 { '6' } else if d == 7 { '7' }
    else if d == 8 { '8' } else { '9' }
}

/// The decimal representation of `n`, without leading zeros.
pub open spec fn decimal(n: nat) -> Seq<char>
    decreases n,
{
    if n < 10 {
        seq![dec_digit(n)]
    } else {
        decimal(n / 10).push(dec_digit(n % 10))
    }
}

/// How one character is written inside a JSON string literal.
pub open spec fn json_char(c: char) -> Seq<char> {
    if c == '"' {
        seq!['\\', '"']
    } else if c == '\\' {
        seq!['\\', '\\']
    } else if c == '\n' {
        seq!['\\', 'n']
    } else if c == '\r' {
        seq!['\\', 'r']
    } else if c == '\t' {
        seq!['\\', 't']
    } else if c == '\u{08}' {
        seq!['\\', 'b']
    } else if c == '\u{0c}' {
        seq!['\\', 'f']
    } else if (c as u32) < 0x20 {
        seq!['\\', 'u', '0', '0', hex_digit((c as u32) / 16), hex_digit((c as u32) % 16)]
    } else {
        seq![c]
    }
}

/// The JSON-escaped form of `s` (without surrounding quotes).
pub open spec fn json_escape(s: Seq<char>) -> Seq<char>
    decreases s.len(),
{
    if s.len() == 0 {
        s
    } else {
        json_escape(s.drop_last()) + json_char(s.last())
    }
}

fn hex_char(d: u32) -> (r: char)
    requires
        d < 16,
    ensures
        r == hex_digit(d),
{
    if d == 0 { '0' } else if d == 1 { '1' } else if d == 2 { '2' } else if d == 3 { '3' }
    else if d == 4 { '4' } else if d == 5 { '5' } else if d == 6 { '6' } else if d == 7 { '7' }
    else if d == 8 { '8' } else if d == 9 { '9' } else if d == 10 { 'a' } else if d == 11 { 'b' }
    else if d == 12 { 'c' } else if d == 13 { 'd' } else if d == 14 { 'e' } else { 'f' }
}

fn dec_char(d: usize) -> (r: char)
    requires
        d < 10,
    ensures
        r == dec_digit(d as nat),
{
    if d == 0 { '0' } else if d == 1 { '1' } else if d == 2 { '2' } else if d == 3 { '3' }
    else if d == 4 { '4' } else if d == 5 { '5' } else if d == 6 { '6' } else if d == 7 { '7' }
    else if d == 8 { '8' } else { '9' }
}

/// Appends the decimal representation of `n`.
pub fn push_decimal(out: &mut Vec<char>, n: usize)
    ensures
        final(out)@ == old(out)@ + decimal(n as nat),
    decreases n,
{
    if n >= 10 {
        push_decimal(out, n / 10);
    }
    out.push(dec_char(n % 10));
    proof {
        if n >= 10 {
            assert(old(out)@ + decimal(n as nat) =~= old(out)@ + decimal((n / 10) as nat) + seq![dec_digit((n % 10) as nat)]);
        } else {
            assert(decimal(n as nat) == seq![dec_digit(n as nat)]);
        }
    }
    assert(final(out)@ =~= old(out)@ + decimal(n as nat)) by {
        if n >= 10 {
            assert(decimal(n as nat) == decimal((n / 10) as nat).push(dec_digit((n % 10) as nat)));
        }
    }
}

/// Appends the JSON-escaped form of `s`.
pub fn push_json_escaped(out: &mut Vec<char>, s: &str)
    ensures
        final(out)@ == old(out)@ + json_escape(s@),
{
    let v = chars_of(s);
    let ghost start = out@;
    let mut i: usize = 0;
    while i < v.len()
        invariant
            i <= v@.len(),
            out@ == start + json_escape(v@.take(i as int)),
        decreases v.len() - i,
    {
        let c = v[i];
        let ghost before = out@;
        if c == '"' {
            push_str(out, "\\\"");
            proof { reveal_strlit("\\\""); }
        } else if c == '\\' {
            push_str(out, "\\\\");
            proof { reveal_strlit("\\\\"); }
        } else if c == '\n' {
            push_str(out, "\\n");
            proof { reveal_strlit("\\n"); }
        } else if c == '\r' {
            push_str(out, "\\r");
            proof { reveal_strlit("\\r"); }
        } else if c == '\t' {
            push_str(out, "\\t");
            proof { reveal_strlit("\\t"); }
        } else if c == '\u{08}' {
            push_str(out, "\\b");
            proof { reveal_strlit("\\b"); }
        } else if c == '\u{0c}' {
            push_str(out, "\\f");
            proof { reveal_strlit("\\f"); }
        } else if (c as u32) < 0x20 {
            let code = c as u32;
            push_str(out, "\\u00");
            proof { reveal_strlit("\\u00"); }
            out.push(hex_char(code / 16));
            out.push(hex_char(code % 16));
        } else {
            out.push(c);
        }
        proof {
            let t = v@.take(i + 1);
            assert(t.drop_last() =~= v@.take(i as int));
            assert(t.last() == c);
            assert(out@ =~= before + json_char(c));
        }
        i += 1;
    }
    assert(v@.take(v@.len() as int) =~= v@);
}

/// Escapes a string for use inside a JSON string literal.
pub fn escape_json(value: &str) -> (r: String)
    ensures
        r@ == json_escape(value@),
{
    let mut out: Vec<char> = Vec::new();
    push_json_escaped(&mut out, value);
    assert(out@ =~= json_escape(value@));
    string_of(out.as_slice())
}

/// A member as a JSON object.
pub open spec fn member_json(m: Member) -> Seq<char> {
    "{\"name\":\""@ + json_escape(m.name@) + "\",\"kind\":\""@ + member_kind_name(m.kind) + "\"}"@
}

/// Members as comma-separated JSON objects.
pub open spec fn member_items(list: Seq<Member>) -> Seq<char>
    decreases list.len(),
{
    if list.len() == 0 {
        Seq::empty()
    } else {
        member_items(list.drop_last()) + (if list.len() > 1 {
            seq![',']
        } else {
            Seq::empty()
        }) + member_json(list.last())
    }
}

/// An optional layer as a JSON string or `null`.
pub open spec fn layer_json(l: Option<Seq<char>>) -> Seq<char> {
    match l {
        Some(x) => seq!['"'] + json_escape(x) + seq!['"'],
        None => "null"@,
    }
}

/// A node and its members as a JSON object.
pub open spec fn node_json(n: Node, list: Seq<Member>) -> Seq<char> {
    "{\"id\":\""@ + json_escape(n.id@) + "\",\"name\":\""@ + json_escape(n.name@) + "\",\"kind\":\""@
        + node_kind_name(n.kind) + "\",\"path\":\""@ + json_escape(n.path@) + "\",\"layer\":"@
        + layer_json(opt_view(n.layer)) + ",\"members\":["@ + member_items(list) + "]}"@
}

/// The nodes (in key order) as comma-separated JSON objects.
pub open spec fn node_items(nodes: Seq<(Seq<char>, Node)>, members: Seq<(Seq<char>, Vec<Member>)>) -> Seq<char>
    decreases nodes.len(),
{
    if nodes.len() == 0 {
        Seq::empty()
    } else {
        node_items(nodes.drop_last(), members) + (if nodes.len() > 1 {
            seq![',']
        } else {
            Seq::empty()
        }) + node_json(nodes.last().1, members_of(members, nodes.last().1.id@))
    }
}

/// An edge as a JSON object.
pub open spec fn edge_json(e: Edge) -> Seq<char> {
    "{\"from\":\""@ + json_escape(e.from@) + "\",\"to\":\""@ + json_escape(e.to@) + "\",\"kind\":\""@
        + edge_kind_name(e.kind) + "\"}"@
}

/// The edges as comma-separated JSON objects.
pub open spec fn edge_items(edges: Seq<Edge>) -> Seq<char>
    decreases edges.len(),
{
    if edges.len() == 0 {
        Seq::empty()
    } else {
        edge_items(edges.drop_last()) + (if edges.len() > 1 {
            seq![',']
        } else {
            Seq::empty()
        }) + edge_json(edges.last())
    }
}

/// The whole graph as a JSON document.
pub open spec fn graph_json(g: Graph) -> Seq<char> {
    "{\"nodes\":["@ + node_items(g.nodes@, g.members@) + "],\"edges\":["@ + edge_items(g.edges@) + "]}"@
}

fn push_member_items(out: &mut Vec<char>, list: &Vec<Member>)
    ensures
        final(out)@ == old(out)@ + member_items(list@),
{
    let ghost start = out@;
    let mut i: usize = 0;
    while i < list.len()
        invariant
            i <= list@.len(),
            out@ == start + member_items(list@.take(i as int)),
        decreases list.len() - i,
    {
        let ghost before = out@;
        if i > 0 {
            out.push(',');
        }
        let m = &list[i];
        push_str(out, "{\"name\":\"");
        push_json_escaped(out, m.name.as_str());
        push_str(out, "\",\"kind\":\"");
        push_str(out, m.kind.as_str());
        push_str(out, "\"}");
        proof {
            let t = list@.take(i + 1);
            assert(t.drop_last() =~= list@.take(i as int));
            assert(t.last() == *m);
            let sep: Seq<char> = if i > 0 { seq![','] } else { Seq::empty() };
            assert(out@ =~= before + sep + member_json(*m));
        }
        i += 1;
    }
    assert(list@.take(list@.len() as int) =~= list@);
}

/// The opening of a node object, up to and including its layer.
pub open spec fn node_head_json(n: Node) -> Seq<char> {
    "{\"id\":\""@ + json_escape(n.id@) + "\",\"name\":\""@ + json_escape(n.name@) + "\",\"kind\":\""@
        + node_kind_name(n.kind) + "\",\"path\":\""@ + json_escape(n.path@) + "\",\"layer\":"@
        + layer_json(opt_view(n.layer))
}

proof fn lemma_node_json(n: Node, list: Seq<Member>)
    ensures
        node_json(n, list) =~= node_head_json(n) + ",\"members\":["@ + member_items(list) + "]}"@,
{
}

fn push_node_ids(out: &mut Vec<char>, n: &Node)
    ensures
        final(out)@ == old(out)@ + ("{\"id\":\""@ + json_escape(n.id@) + "\",\"name\":\""@ + json_escape(n.name@)),
{
    let ghost start = out@;
    push_str(out, "{\"id\":\"");
    push_json_escaped(out, n.id.as_str());
    push_str(out, "\",\"name\":\"");
    push_json_escaped(out, n.name.as_str());
    assert(out@ =~= start + ("{\"id\":\""@ + json_escape(n.id@) + "\",\"name\":\""@ + json_escape(n.name@)));
}

fn push_node_head(out: &mut Vec<char>, n: &Node)
    ensures
        final(out)@ == old(out)@ + node_head_json(*n),
{
    let ghost start = out@;
    push_node_ids(out, n);
    let ghost a = out@;
    push_str(out, "\",\"kind\":\"");
    push_str(out, n.kind.as_str());
    push_str(out, "\",\"path\":\"");
    push_json_escaped(out, n.path.as_str());
    push_str(out, "\",\"layer\":");
    let ghost b = out@;
    assert(b =~= a + ("\",\"kind\":\""@ + node_kind_name(n.kind) + "\",\"path\":\""@ + json_escape(n.path@) + "\",\"layer\":"@));
    match &n.layer {
        Some(l) => {
            out.push('"');
            push_json_escaped(out, l.as_str());
            out.push('"');
        },
        None => {
            push_str(out, "null");
        },
    }
    assert(out@ =~= b + layer_json(opt_view(n.layer)));
    assert(out@ =~= start + node_head_json(*n));
}

fn push_node_json(out: &mut Vec<char>, n: &Node, members: &KeyMap<Vec<Member>>)
    ensures
        final(out)@ == old(out)@ + node_json(*n, members_of(members@, n.id@)),
{
    let ghost start = out@;
    push_node_head(out, n);
    push_str(out, ",\"members\":[");
    let ghost before_items = out@;
    match members.get(n.id.as_str()) {
        Some(list) => {
            push_member_items(out, list);
        },
        None => {},
    }
    assert(out@ == before_items + member_items(members_of(members@, n.id@))) by {
        if !has_key(members@, n.id@) {
            assert(members_of(members@, n.id@) =~= Seq::<Member>::empty());
            assert(member_items(Seq::<Member>::empty()) =~= Seq::<char>::empty());
            assert(out@ =~= before_items + Seq::<char>::empty());
        }
    }
    push_str(out, "]}");
    proof {
        lemma_node_json(*n, members_of(members@, n.id@));
    }
    assert(out@ =~= start + node_json(*n, members_of(members@, n.id@)));
}

fn push_edge_json(out: &mut Vec<char>, e: &Edge)
    ensures
        final(out)@ == old(out)@ + edge_json(*e),
{
    let ghost start = out@;
    push_str(out, "{\"from\":\"");
    push_json_escaped(out, e.from.as_str());
    push_str(out, "\",\"to\":\"");
    push_json_escaped(out, e.to.as_str());
    push_str(out, "\",\"kind\":\"");
    push_str(out, e.kind.as_str());
    push_str(out, "\"}");
    assert(out@ =~= start + edge_json(*e));
}

impl Graph {
    /// Serializes graph data into deterministic JSON: nodes in id order with
    /// their members, then edges in insertion order.
    pub fn to_json(&self) -> (r: String)
        ensures
            r@ == graph_json(*self),
    {
        let mut out: Vec<char> = Vec::new();
        push_str(&mut out, "{\"nodes\":[");
        let ghost start = out@;
        let es = self.nodes.entries();
        let mut i: usize = 0;
        while i < es.len()
            invariant
                key_view(es@) == self.nodes@,
                i <= es@.len(),
                out@ == start + node_items(self.nodes@.take(i as int), self.members@),
            decreases es.len() - i,
        {
            let ghost before = out@;
            if i > 0 {
                out.push(',');
            }
            push_node_json(&mut out, &es[i].1, &self.members);
            proof {
                lemma_key_view_index(es@, i as int);
                let t = self.nodes@.take(i + 1);
                assert(t.drop_last() =~= self.nodes@.take(i as int));
                assert(t.last().1 == es@[i as int].1);
                let sep: Seq<char> = if i > 0 { seq![','] } else { Seq::empty() };
                assert(out@ =~= before + sep + node_json(es@[i as int].1, members_of(self.members@, es@[i as int].1.id@)));
            }
            i += 1;
        }
        assert(self.nodes@.take(es@.len() as int) =~= self.nodes@);
        push_str(&mut out, "],\"edges\":[");
        let ghost mid = out@;
        let mut j: usize = 0;
        while j < self.edges.len()
            invariant
                j <= self.edges@.len(),
                out@ == mid + edge_items(self.edges@.take(j as int)),
            decreases self.edges.len() - j,
        {
            let ghost before = out@;
            if j > 0 {
                out.push(',');
            }
            push_edge_json(&mut out, &self.edges[j]);
            proof {
                let t = self.edges@.take(j + 1);
                assert(t.drop_last() =~= self.edges@.take(j as int));
                let sep: Seq<char> = if j > 0 { seq![','] } else { Seq::empty() };
                assert(out@ =~= before + sep + edge_json(self.edges@[j as int]));
            }
            j += 1;
        }
        assert(self.edges@.take(self.edges@.len() as int) =~= self.edges@);
        push_str(&mut out, "]}");
        assert(out@ =~= graph_json(*self));
        string_of(out.as_slice())
    }
}

/// How one character appears in a Mermaid identifier.
pub open spec fn mermaid_char(c: char) -> char {
    if is_alnum(c) || c == '_' {
        c
    } else {
        '_'
    }
}

/// A name made safe for Mermaid: every character other than an ASCII letter,
/// digit or `_` becomes `_`.
pub open spec fn mermaid_safe(s: Seq<char>) -> Seq<char> {
    s.map_values(|c: char| mermaid_char(c))
}

fn push_sanitized(out: &mut Vec<char>, s: &str)
    ensures
        final(out)@ == old(out)@ + mermaid_safe(s@),
{
    let v = chars_of(s);
    let ghost start = out@;
    let mut i: usize = 0;
    while i < v.len()
        invariant
            i <= v@.len(),
            out@ == start + mermaid_safe(v@.take(i as int)),
        decreases v.len() - i,
    {
        let c = v[i];
        if is_ascii_alnum(c) || c == '_' {
            out.push(c);
        } else {
            out.push('_');
        }
        assert(mermaid_safe(v@.take(i + 1)) =~= mermaid_safe(v@.take(i as int)).push(mermaid_char(c)));
        assert(out@ =~= start + mermaid_safe(v@.take(i + 1)));
        i += 1;
    }
    assert(v@.take(v@.len() as int) =~= v@);
}

/// Replaces every character that Mermaid does not accept in a name with `_`.
pub fn sanitize_mermaid(value: &str) -> (r: String)
    ensures
        r@ == mermaid_safe(value@),
{
    let mut out: Vec<char> = Vec::new();
    push_sanitized(&mut out, value);
    assert(out@ =~= mermaid_safe(value@));
    string_of(out.as_slice())
}

/// One member line inside a Mermaid class body.
pub open spec fn mermaid_member(m: Member) -> Seq<char> {
    "    +"@ + mermaid_safe(m.name@) + (if m.kind == MemberKind::Method {
        "()"@
    } else {
        Seq::empty()
    }) + seq!['\n']
}

/// The member lines of a class body.
pub open spec fn mermaid_members(list: Seq<Member>) -> Seq<char>
    decreases list.len(),
{
    if list.len() == 0 {
        Seq::empty()
    } else {
        mermaid_members(list.drop_last()) + mermaid_member(list.last())
    }
}

/// The class declaration for one diagram node.
pub open spec fn mermaid_class(n: Node, list: Seq<Member>) -> Seq<char> {
    let safe = mermaid_safe(n.name@);
    (if list.len() > 0 {
        "  class "@ + safe + " {\n"@ + mermaid_members(list) + "  }\n"@
    } else {
        "  class "@ + safe + seq!['\n']
    }) + (if n.kind == NodeKind::Entity {
        "  <<entity>> "@ + safe + seq!['\n']
    } else {
        Seq::empty()
    })
}

/// The class declarations of the type and entity nodes, in id order.
pub open spec fn mermaid_classes(nodes: Seq<(Seq<char>, Node)>, members: Seq<(Seq<char>, Vec<Member>)>) -> Seq<char>
    decreases nodes.len(),
{
    if nodes.len() == 0 {
        Seq::empty()
    } else {
        mermaid_classes(nodes.drop_last(), members) + if is_diagram_kind(nodes.last().1.kind) {
            mermaid_class(nodes.last().1, members_of(members, nodes.last().0))
        } else {
            Seq::empty()
        }
    }
}

/// Whether `id` names a node that diagrams draw.
pub open spec fn is_diagram_id(nodes: Seq<(Seq<char>, Node)>, id: Seq<char>) -> bool {
    has_key(nodes, id) && is_diagram_kind(value_of(nodes, id).kind)
}

/// The Mermaid arrow for an edge kind.
pub open spec fn mermaid_arrow(k: EdgeKind) -> Seq<char> {
    match k {
        EdgeKind::Extends => "--|>"@,
        EdgeKind::Implements => "..|>"@,
        EdgeKind::RelatesTo => "-->"@,
        _ => "..>"@,
    }
}

/// The Mermaid label for an edge kind.
pub open spec fn mermaid_label(k: EdgeKind) -> Seq<char> {
    match k {
        EdgeKind::Extends => " : extends"@,
        EdgeKind::Implements => " : implements"@,
        EdgeKind::RelatesTo => " : relates"@,
        EdgeKind::Imports => " : imports"@,
        EdgeKind::Contains => Seq::empty(),
    }
}

/// The relation line for one edge: drawn when it is not a containment edge and
/// both ends are diagram nodes.
pub open spec fn mermaid_edge(nodes: Seq<(Seq<char>, Node)>, e: Edge) -> Seq<char> {
    if e.kind == EdgeKind::Contains || !is_diagram_id(nodes, e.from@) || !is_diagram_id(nodes, e.to@) {
        Seq::empty()
    } else {
        "  "@ + mermaid_safe(value_of(nodes, e.from@).name@) + seq![' '] + mermaid_arrow(e.kind) + seq![' ']
            + mermaid_safe(value_of(nodes, e.to@).name@) + mermaid_label(e.kind) + seq!['\n']
    }
}

/// The relation lines of all edges, in edge order.
pub open spec fn mermaid_edges(nodes: Seq<(Seq<char>, Node)>, edges: Seq<Edge>) -> Seq<char>
    decreases edges.len(),
{
    if edges.len() == 0 {
        Seq::empty()
    } else {
        mermaid_edges(nodes, edges.drop_last()) + mermaid_edge(nodes, edges.last())
    }
}

/// The whole Mermaid class diagram.
pub open spec fn graph_mermaid(g: Graph) -> Seq<char> {
    "classDiagram\n"@ + mermaid_classes(g.nodes@, g.members@) + mermaid_edges(g.nodes@, g.edges@)
}

fn push_mermaid_class(out: &mut Vec<char>, n: &Node, members: &KeyMap<Vec<Member>>, id: &str)
    ensures
        final(out)@ == old(out)@ + mermaid_class(*n, members_of(members@, id@)),
{
    let ghost start = out@;
    let ghost list = members_of(members@, id@);
    let ghost safe = mermaid_safe(n.name@);
    push_str(out, "  class ");
    push_sanitized(out, n.name.as_str());
    let ghost a = out@;
    let m = members.get(id);
    let nonempty = match m {
        Some(v) => v.len() > 0,
        None => false,
    };
    if nonempty {
        let v = m.unwrap();
        push_str(out, " {\n");
        let ghost b = out@;
        let mut i: usize = 0;
        while i < v.len()
            invariant
                i <= v@.len(),
                out@ == b + mermaid_members(v@.take(i as int)),
            decreases v.len() - i,
        {
            let ghost before = out@;
            let mm = &v[i];
            push_str(out, "    +");
            push_sanitized(out, mm.name.as_str());
            if mm.kind == MemberKind::Method {
                push_str(out, "()");
            }
            out.push('\n');
            proof {
                let t = v@.take(i + 1);
                assert(t.drop_last() =~= v@.take(i as int));
                assert(t.last() == *mm);
                assert(out@ =~= before + mermaid_member(*mm));
            }
            i += 1;
        }
        assert(v@.take(v@.len() as int) =~= v@);
        push_str(out, "  }\n");
        assert(v@ == list);
        assert(out@ =~= start + ("  class "@ + safe + " {\n"@ + mermaid_members(list) + "  }\n"@));
    } else {
        out.push('\n');
        assert(list.len() == 0);
        assert(out@ =~= start + ("  class "@ + safe + seq!['\n']));
    }
    let ghost c = out@;
    if n.kind == NodeKind::Entity {
        push_str(out, "  <<entity>> ");
        push_sanitized(out, n.name.as_str());
        out.push('\n');
        assert(out@ =~= c + ("  <<entity>> "@ + safe + seq!['\n']));
    }
    assert(out@ =~= start + mermaid_class(*n, list));
}

fn push_mermaid_edge(out: &mut Vec<char>, nodes: &KeyMap<Node>, diagram: &crate::keymap::KeySet, e: &Edge)
    requires
        forall|k: Seq<char>| has_key(diagram@, k) <==> is_diagram_id(nodes@, k),
    ensures
        final(out)@ == old(out)@ + mermaid_edge(nodes@, *e),
{
    let ghost start = out@;
    if e.kind == EdgeKind::Contains || !diagram.contains_key(e.from.as_str()) || !diagram.contains_key(
        e.to.as_str(),
    ) {
        assert(out@ =~= start + mermaid_edge(nodes@, *e));
        return;
    }
    let from = nodes.get(e.from.as_str());
    let to = nodes.get(e.to.as_str());
    if from.is_none() || to.is_none() {
        return;
    }
    let from = from.unwrap();
    let to = to.unwrap();
    push_str(out, "  ");
    push_sanitized(out, from.name.as_str());
    out.push(' ');
    let arrow = match e.kind {
        EdgeKind::Extends => "--|>",
        EdgeKind::Implements => "..|>",
        EdgeKind::RelatesTo => "-->",
        _ => "..>",
    };
    push_str(out, arrow);
    out.push(' ');
    push_sanitized(out, to.name.as_str());
    let label = match e.kind {
        EdgeKind::Extends => " : extends",
        EdgeKind::Implements => " : implements",
        EdgeKind::RelatesTo => " : relates",
        EdgeKind::Imports => " : imports",
        EdgeKind::Contains => "",
    };
    push_str(out, label);
    out.push('\n');
    proof {
        if e.kind == EdgeKind::Contains {
            reveal_strlit("");
        }
        assert(arrow@ == mermaid_arrow(e.kind));
        assert(label@ == mermaid_label(e.kind));
    }
    assert(out@ =~= start + mermaid_edge(nodes@, *e));
}

impl Graph {
    /// Serializes graph data into Mermaid class-diagram syntax: a class per type
    /// or entity node (with its members), then one relation line per drawn edge.
    pub fn to_mermaid(&self) -> (r: String)
        ensures
            r@ == graph_mermaid(*self),
    {
        let mut out: Vec<char> = Vec::new();
        push_str(&mut out, "classDiagram\n");
        let ghost start = out@;
        let es = self.nodes.entries();
        let mut i: usize = 0;
        while i < es.len()
            invariant
                key_view(es@) == self.nodes@,
                i <= es@.len(),
                out@ == start + mermaid_classes(self.nodes@.take(i as int), self.members@),
            decreases es.len() - i,
        {
            let ghost before = out@;
            proof {
                lemma_key_view_index(es@, i as int);
            }
            let n = &es[i].1;
            if n.kind == NodeKind::Type || n.kind == NodeKind::Entity {
                push_mermaid_class(&mut out, n, &self.members, es[i].0.as_str());
            }
            proof {
                let t = self.nodes@.take(i + 1);
                assert(t.drop_last() =~= self.nodes@.take(i as int));
                assert(t.last() == (es@[i as int].0@, es@[i as int].1));
            }
            i += 1;
        }
        assert(self.nodes@.take(es@.len() as int) =~= self.nodes@);
        let diagram = self.diagram_node_ids();
        let ghost mid = out@;
        let mut j: usize = 0;
        while j < self.edges.len()
            invariant
                j <= self.edges@.len(),
                forall|k: Seq<char>| has_key(diagram@, k) <==> is_diagram_id(self.nodes@, k),
                out@ == mid + mermaid_edges(self.nodes@, self.edges@.take(j as int)),
            decreases self.edges.len() - j,
        {
            let ghost before = out@;
            push_mermaid_edge(&mut out, &self.nodes, &diagram, &self.edges[j]);
            proof {
                let t = self.edges@.take(j + 1);
                assert(t.drop_last() =~= self.edges@.take(j as int));
                assert(out@ =~= before + mermaid_edge(self.nodes@, self.edges@[j as int]));
            }
            j += 1;
        }
        assert(self.edges@.take(self.edges@.len() as int) =~= self.edges@);
        assert(out@ =~= graph_mermaid(*self));
        string_of(out.as_slice())
    }
}

} // verus!
