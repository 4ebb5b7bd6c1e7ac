//! The language recognizers: each turns one source file into graph updates
//! (a file node, type nodes, inheritance edges, members and the references
//! its types make to imported names) and applies them.
use crate::graph::Graph;
use crate::imports::{
    all_line_refs, collect_imports, collect_java_style_imports, collect_ts_imports, dotted_import_refs, import_views,
    ts_import_refs, ImportRef, ImportStyle,
};
use crate::keymap::{has_key, lemma_insert_entry, sorted_keys, KeyMap, KeySet};
use crate::model::{opt_view, EdgeKind, Member, MemberKind, MemberView, Node, NodeKind, NodeView};
use crate::ops::{apply_all, graph_view, op_views, GraphOp, OpView};
use crate::recognize::{
    after_keyword, after_keyword_all, body_mentions, keyword_name, keyword_names, layer_for_path, layer_of_path,
    mentions,
};
use crate::spans::{body_members, extract_brace_type_spans, extract_curly_members, kw_views, span_views, type_spans, BraceLanguage, SpanView, TypeSpan};
use crate::strs::{
    first_piece, first_piece_set, in_set, lines, lines_of, second_piece, second_piece_set, seqs_view, split_on, trim, trim_by,
    trim_set, trim_start_lit, trim_start_str, trim_ws,
};
use crate::text::{chars_of, push_all, push_str, string_of, strs_view};
use vstd::prelude::*;

verus! {

broadcast use vstd::string::group_string_axioms;

/// The id of a file's node.
pub open spec fn file_id_of(path: Seq<char>) -> Seq<char> {
    "file:"@ + path
}

/// The node of a source file.
pub open spec fn file_node(path: Seq<char>) -> NodeView {
    NodeView { id: file_id_of(path), name: path, kind: NodeKind::File, path, layer: layer_of_path(path) }
}

/// A declared type name with surrounding punctuation removed.
pub open spec fn clean_type_name(name: Seq<char>) -> Seq<char> {
    trim_by(name, in_set("{}():,;"@))
}

/// The updates recording a type declared in a file: its node and the file's
/// containment edge; none when the name is empty once cleaned.
pub open spec fn type_node_ops(path: Seq<char>, file_id: Seq<char>, name: Seq<char>, kind: NodeKind) -> Seq<OpView> {
    let clean = clean_type_name(name);
    if clean.len() == 0 {
        Seq::empty()
    } else {
        let id = "type:"@ + clean;
        seq![
            OpView::Upsert(NodeView { id, name: clean, kind, path, layer: layer_of_path(path) }),
            OpView::Link(file_id, id, EdgeKind::Contains),
        ]
    }
}

fn type_id(name: &[char]) -> (r: Vec<char>)
    ensures
        r@ == "type:"@ + name@,
{
    let mut v: Vec<char> = Vec::new();
    push_str(&mut v, "type:");
    push_all(&mut v, name);
    v
}

/// The file node update and the file's id.
pub fn file_node_op(path: &str) -> (r: (GraphOp, String))
    ensures
        r.0@ == OpView::Upsert(file_node(path@)),
        r.1@ == file_id_of(path@),
{
    let mut v: Vec<char> = Vec::new();
    push_str(&mut v, "file:");
    push_str(&mut v, path);
    let pv = chars_of(path);
    let node = Node {
        id: string_of(v.as_slice()),
        name: crate::text::owned(path),
        kind: NodeKind::File,
        path: crate::text::owned(path),
        layer: layer_for_path(pv.as_slice()),
    };
    (GraphOp::Upsert(node), string_of(v.as_slice()))
}

/// The type node updates, and the type's id (empty when none).
pub fn type_node_op_list(path: &str, file_id: &String, name: &[char], kind: NodeKind) -> (r: (Vec<GraphOp>, Vec<char>))
    ensures
        op_views(r.0@) == type_node_ops(path@, file_id@, name@, kind),
        r.1@ == (if clean_type_name(name@).len() == 0 {
            Seq::empty()
        } else {
            "type:"@ + clean_type_name(name@)
        }),
{
    let clean = trim_set(name, chars_of("{}():,;").as_slice());
    let mut ops: Vec<GraphOp> = Vec::new();
    if clean.len() == 0 {
        assert(op_views(ops@) =~= Seq::<OpView>::empty());
        return (ops, Vec::new());
    }
    let id = type_id(clean.as_slice());
    let pv = chars_of(path);
    let node = Node {
        id: string_of(id.as_slice()),
        name: string_of(clean.as_slice()),
        kind,
        path: crate::text::owned(path),
        layer: layer_for_path(pv.as_slice()),
    };
    ops.push(GraphOp::Upsert(node));
    ops.push(GraphOp::Link(file_id.clone(), string_of(id.as_slice()), EdgeKind::Contains));
    assert(op_views(ops@) =~= type_node_ops(path@, file_id@, name@, kind));
    (ops, id)
}

/// The updates recording the members of a type.
pub open spec fn member_ops(id: Seq<char>, ms: Seq<MemberView>) -> Seq<OpView> {
    ms.map_values(|m: MemberView| OpView::AddMember(id, m))
}

/// The references a type body makes to imported names it mentions.
pub open spec fn import_ops(id: Seq<char>, body: Seq<char>, imports: Seq<(Seq<char>, Option<Seq<char>>)>) -> Seq<OpView>
    decreases imports.len(),
{
    if imports.len() == 0 {
        Seq::empty()
    } else {
        let rest = import_ops(id, body, imports.drop_last());
        let (t, l) = imports.last();
        if mentions(body, t) {
            rest.push(OpView::Reference(id, t, t, EdgeKind::Imports, l))
        } else {
            rest
        }
    }
}

fn push_member_ops(ops: &mut Vec<GraphOp>, id: &[char], members: Vec<Member>)
    ensures
        op_views(final(ops)@) == op_views(old(ops)@) + member_ops(id@, crate::ops::member_views(members@)),
{
    let ghost start = op_views(ops@);
    let ghost mv = crate::ops::member_views(members@);
    let mut i: usize = 0;
    while i < members.len()
        invariant
            i <= members@.len(),
            mv == crate::ops::member_views(members@),
            op_views(ops@) == start + member_ops(id@, mv.take(i as int)),
        decreases members.len() - i,
    {
        let ghost o0 = op_views(ops@);
        ops.push(GraphOp::AddMember(string_of(id), members[i].duplicate()));
        assert(op_views(ops@) =~= o0.push(OpView::AddMember(id@, mv[i as int])));
        assert(member_ops(id@, mv.take(i + 1)) =~= member_ops(id@, mv.take(i as int)).push(OpView::AddMember(id@, mv[i as int])));
        i += 1;
    }
    assert(mv.take(members@.len() as int) =~= mv);
}

fn push_import_ops(ops: &mut Vec<GraphOp>, id: &[char], body: &[char], imports: &Vec<ImportRef>)
    ensures
        op_views(final(ops)@) == op_views(old(ops)@) + import_ops(id@, body@, import_views(imports@)),
{
    let ghost start = op_views(ops@);
    let ghost iv = import_views(imports@);
    let mut i: usize = 0;
    while i < imports.len()
        invariant
            i <= imports@.len(),
            iv == import_views(imports@),
            op_views(ops@) == start + import_ops(id@, body@, iv.take(i as int)),
        decreases imports.len() - i,
    {
        let (target, layer) = &imports[i];
        let tv = chars_of(target.as_str());
        let ghost o0 = op_views(ops@);
        proof {
            let t = iv.take(i + 1);
            assert(t.drop_last() =~= iv.take(i as int));
            assert(t.last() == (target@, opt_view(*layer)));
        }
        if body_mentions(body, tv.as_slice()) {
            ops.push(
                GraphOp::Reference(string_of(id), target.clone(), target.clone(), EdgeKind::Imports, crate::model::clone_opt(layer)),
            );
            assert(op_views(ops@) =~= o0.push(OpView::Reference(id@, target@, target@, EdgeKind::Imports, opt_view(*layer))));
        }
        i += 1;
    }
    assert(iv.take(imports@.len() as int) =~= iv);
}


/// The edge from `id` to the type named after the word `kw` in a header, if any.
pub open spec fn keyword_link(id: Seq<char>, header: Seq<char>, kw: Seq<char>, kind: EdgeKind) -> Seq<OpView> {
    match keyword_name(header, kw) {
        Some(p) => seq![OpView::Link(id, "type:"@ + p, kind)],
        None => Seq::empty(),
    }
}

/// Edges from `id` to the types named in a list.
pub open spec fn links_to(id: Seq<char>, names: Seq<Seq<char>>, kind: EdgeKind) -> Seq<OpView> {
    names.map_values(|n: Seq<char>| OpView::Link(id, "type:"@ + n, kind))
}

/// `s` with C++ base-class access words stripped, in order.
pub open spec fn strip_cpp_access(s: Seq<char>) -> Seq<char> {
    trim_start_lit(trim_start_lit(trim_start_lit(trim_start_lit(s, "public "@), "private "@), "protected "@), "virtual "@)
}

/// The parent name one entry of a `:` list gives, per language.
pub open spec fn colon_parent(lang: BraceLanguage, seg: Seq<char>) -> Seq<char> {
    match lang {
        BraceLanguage::Kotlin => trim(first_piece(trim(seg), in_set("(<"@))),
        BraceLanguage::Csharp => trim(first_piece(seg, in_set(" <{"@))),
        BraceLanguage::Cpp => trim(first_piece(strip_cpp_access(trim(seg)), in_set(" <{"@))),
        _ => trim(first_piece(trim(seg), in_set(" <{"@))),
    }
}

/// The non-empty parent names of the entries of a `:` list.
pub open spec fn colon_parents(lang: BraceLanguage, segs: Seq<Seq<char>>) -> Seq<Seq<char>>
    decreases segs.len(),
{
    if segs.len() == 0 {
        Seq::empty()
    } else {
        let rest = colon_parents(lang, segs.drop_last());
        let n = colon_parent(lang, segs.last());
        if n.len() > 0 {
            rest.push(n)
        } else {
            rest
        }
    }
}

/// The parents listed after the first `:` of a header (before any `{` for Kotlin).
pub open spec fn colon_list(lang: BraceLanguage, header: Seq<char>) -> Seq<Seq<char>> {
    match second_piece(header, in_set(":"@)) {
        Some(sup) => colon_parents(
            lang,
            split_on(
                if lang == BraceLanguage::Kotlin {
                    first_piece(sup, in_set("{"@))
                } else {
                    sup
                },
                ',',
            ),
        ),
        None => Seq::empty(),
    }
}

/// The inheritance edges a declaration header gives, per language.
pub open spec fn header_ops(lang: BraceLanguage, id: Seq<char>, header: Seq<char>) -> Seq<OpView> {
    match lang {
        BraceLanguage::Typescript | BraceLanguage::Java => keyword_link(id, header, "extends"@, EdgeKind::Extends) + links_to(
            id,
            keyword_names(header, "implements"@),
            EdgeKind::Implements,
        ),
        BraceLanguage::Kotlin | BraceLanguage::Cpp => links_to(id, colon_list(lang, header), EdgeKind::Extends),
        BraceLanguage::Csharp | BraceLanguage::Swift => links_to(id, colon_list(lang, header), EdgeKind::Implements),
        BraceLanguage::Php => keyword_link(id, header, "extends"@, EdgeKind::Extends) + keyword_link(
            id,
            header,
            "implements"@,
            EdgeKind::Implements,
        ),
        BraceLanguage::Scala => keyword_link(id, header, "extends"@, EdgeKind::Extends),
        BraceLanguage::Dart => keyword_link(id, header, "extends"@, EdgeKind::Extends) + keyword_link(
            id,
            header,
            "implements"@,
            EdgeKind::Implements,
        ) + keyword_link(id, header, "with"@, EdgeKind::RelatesTo),
        _ => Seq::empty(),
    }
}

fn push_keyword_link(ops: &mut Vec<GraphOp>, id: &[char], header: &[char], kw: &str, kind: EdgeKind)
    ensures
        op_views(final(ops)@) == op_views(old(ops)@) + keyword_link(id@, header@, kw@, kind),
{
    let ghost o0 = op_views(ops@);
    match after_keyword(header, kw) {
        Some(p) => {
            let target = type_id(p.as_slice());
            ops.push(GraphOp::Link(string_of(id), string_of(target.as_slice()), kind));
            assert(op_views(ops@) =~= o0 + keyword_link(id@, header@, kw@, kind));
        },
        None => {
            assert(op_views(ops@) =~= o0 + keyword_link(id@, header@, kw@, kind));
        },
    }
}

fn push_links(ops: &mut Vec<GraphOp>, id: &[char], names: &Vec<Vec<char>>, kind: EdgeKind)
    ensures
        op_views(final(ops)@) == op_views(old(ops)@) + links_to(id@, seqs_view(names@), kind),
{
    let ghost start = op_views(ops@);
    let ghost nv = seqs_view(names@);
    let mut i: usize = 0;
    while i < names.len()
        invariant
            i <= names@.len(),
            nv == seqs_view(names@),
            op_views(ops@) == start + links_to(id@, nv.take(i as int), kind),
        decreases names.len() - i,
    {
        let ghost o0 = op_views(ops@);
        let target = type_id(names[i].as_slice());
        ops.push(GraphOp::Link(string_of(id), string_of(target.as_slice()), kind));
        assert(nv[i as int] == names@[i as int]@);
        assert(op_views(ops@) =~= o0.push(OpView::Link(id@, "type:"@ + nv[i as int], kind)));
        assert(links_to(id@, nv.take(i + 1), kind) =~= links_to(id@, nv.take(i as int), kind).push(
            OpView::Link(id@, "type:"@ + nv[i as int], kind),
        ));
        i += 1;
    }
    assert(nv.take(names@.len() as int) =~= nv);
}

fn colon_parent_of(lang: BraceLanguage, seg: &[char]) -> (r: Vec<char>)
    ensures
        r@ == colon_parent(lang, seg@),
{
    match lang {
        BraceLanguage::Kotlin => {
            let a = trim_ws(seg);
            let b = first_piece_set(a.as_slice(), chars_of("(<").as_slice());
            trim_ws(b.as_slice())
        },
        BraceLanguage::Csharp => {
            let b = first_piece_set(seg, chars_of(" <{").as_slice());
            trim_ws(b.as_slice())
        },
        BraceLanguage::Cpp => {
            let a = trim_ws(seg);
            let a1 = trim_start_str(a.as_slice(), "public ");
            let a2 = trim_start_str(a1.as_slice(), "private ");
            let a3 = trim_start_str(a2.as_slice(), "protected ");
            let a4 = trim_start_str(a3.as_slice(), "virtual ");
            let b = first_piece_set(a4.as_slice(), chars_of(" <{").as_slice());
            trim_ws(b.as_slice())
        },
        _ => {
            let a = trim_ws(seg);
            let b = first_piece_set(a.as_slice(), chars_of(" <{").as_slice());
            trim_ws(b.as_slice())
        },
    }
}

fn colon_list_of(lang: BraceLanguage, header: &[char]) -> (r: Vec<Vec<char>>)
    ensures
        seqs_view(r@) == colon_list(lang, header@),
{
    match second_piece_set(header, chars_of(":").as_slice()) {
        Some(sup) => {
            let list = if lang == BraceLanguage::Kotlin {
                first_piece_set(sup.as_slice(), chars_of("{").as_slice())
            } else {
                let r = crate::graph::slice_from(sup.as_slice(), 0);
                assert(r@ =~= sup@);
                r
            };
            let segs = crate::recognize::split_char(list.as_slice(), ',');
            let ghost sv = seqs_view(segs@);
            let mut out: Vec<Vec<char>> = Vec::new();
            let mut i: usize = 0;
            while i < segs.len()
                invariant
                    i <= segs@.len(),
                    sv == seqs_view(segs@),
                    seqs_view(out@) == colon_parents(lang, sv.take(i as int)),
                decreases segs.len() - i,
            {
                let n = colon_parent_of(lang, segs[i].as_slice());
                let ghost o0 = seqs_view(out@);
                proof {
                    let t = sv.take(i + 1);
                    assert(t.drop_last() =~= sv.take(i as int));
                    assert(t.last() == segs@[i as int]@);
                }
                if n.len() > 0 {
                    let ghost nv = n@;
                    out.push(n);
                    assert(seqs_view(out@) =~= o0.push(nv));
                }
                i += 1;
            }
            assert(sv.take(segs@.len() as int) =~= sv);
            out
        },
        None => {
            let out: Vec<Vec<char>> = Vec::new();
            assert(seqs_view(out@) =~= Seq::<Seq<char>>::empty());
            out
        },
    }
}

fn push_header_ops(ops: &mut Vec<GraphOp>, lang: BraceLanguage, id: &[char], header: &[char])
    ensures
        op_views(final(ops)@) == op_views(old(ops)@) + header_ops(lang, id@, header@),
{
    let ghost o0 = op_views(ops@);
    match lang {
        BraceLanguage::Typescript | BraceLanguage::Java => {
            push_keyword_link(ops, id, header, "extends", EdgeKind::Extends);
            let names = after_keyword_all(header, "implements");
            push_links(ops, id, &names, EdgeKind::Implements);
        },
        BraceLanguage::Kotlin | BraceLanguage::Cpp => {
            let names = colon_list_of(lang, header);
            push_links(ops, id, &names, EdgeKind::Extends);
        },
        BraceLanguage::Csharp | BraceLanguage::Swift => {
            let names = colon_list_of(lang, header);
            push_links(ops, id, &names, EdgeKind::Implements);
        },
        BraceLanguage::Php => {
            push_keyword_link(ops, id, header, "extends", EdgeKind::Extends);
            push_keyword_link(ops, id, header, "implements", EdgeKind::Implements);
        },
        BraceLanguage::Scala => {
            push_keyword_link(ops, id, header, "extends", EdgeKind::Extends);
        },
        BraceLanguage::Dart => {
            push_keyword_link(ops, id, header, "extends", EdgeKind::Extends);
            push_keyword_link(ops, id, header, "implements", EdgeKind::Implements);
            push_keyword_link(ops, id, header, "with", EdgeKind::RelatesTo);
        },
        _ => {},
    }
    assert(op_views(ops@) =~= o0 + header_ops(lang, id@, header@));
}


/// The kind of a declared type: an entity when its name is in `entities`.
pub open spec fn span_kind(name: Seq<char>, entities: Set<Seq<char>>) -> NodeKind {
    if entities.contains(name) {
        NodeKind::Entity
    } else {
        NodeKind::Type
    }
}

/// The updates one type span gives: its node and containment edge, its
/// inheritance edges, its members and its references to mentioned imports;
/// nothing when its name is empty once cleaned.
pub open spec fn span_ops(
    path: Seq<char>,
    file_id: Seq<char>,
    s: SpanView,
    imports: Seq<(Seq<char>, Option<Seq<char>>)>,
    lang: BraceLanguage,
    entities: Set<Seq<char>>,
) -> Seq<OpView> {
    let clean = clean_type_name(s.name);
    if clean.len() == 0 {
        Seq::empty()
    } else {
        let id = "type:"@ + clean;
        type_node_ops(path, file_id, s.name, span_kind(s.name, entities)) + header_ops(lang, id, s.header) + member_ops(
            id,
            body_members(s.body, lang),
        ) + import_ops(id, s.body, imports)
    }
}

/// The updates of all spans, in order.
pub open spec fn spans_ops(
    path: Seq<char>,
    file_id: Seq<char>,
    spans: Seq<SpanView>,
    imports: Seq<(Seq<char>, Option<Seq<char>>)>,
    lang: BraceLanguage,
    entities: Set<Seq<char>>,
) -> Seq<OpView>
    decreases spans.len(),
{
    if spans.len() == 0 {
        Seq::empty()
    } else {
        spans_ops(path, file_id, spans.drop_last(), imports, lang, entities) + span_ops(
            path,
            file_id,
            spans.last(),
            imports,
            lang,
            entities,
        )
    }
}

fn push_spans_ops(
    ops: &mut Vec<GraphOp>,
    path: &str,
    file_id: &String,
    spans: &Vec<TypeSpan>,
    imports: &Vec<ImportRef>,
    lang: BraceLanguage,
    entities: &KeySet,
)
    ensures
        op_views(final(ops)@) == op_views(old(ops)@) + spans_ops(
            path@,
            file_id@,
            span_views(spans@),
            import_views(imports@),
            lang,
            crate::graph::key_set(entities@),
        ),
{
    let ghost start = op_views(ops@);
    let ghost sv = span_views(spans@);
    let ghost iv = import_views(imports@);
    let ghost ents = crate::graph::key_set(entities@);
    let mut i: usize = 0;
    while i < spans.len()
        invariant
            i <= spans@.len(),
            sv == span_views(spans@),
            iv == import_views(imports@),
            ents == crate::graph::key_set(entities@),
            op_views(ops@) == start + spans_ops(path@, file_id@, sv.take(i as int), iv, lang, ents),
        decreases spans.len() - i,
    {
        let span = &spans[i];
        let ghost o0 = op_views(ops@);
        proof {
            let t = sv.take(i + 1);
            assert(t.drop_last() =~= sv.take(i as int));
            assert(t.last() == span@);
        }
        let name_str = string_of(span.name.as_slice());
        let kind = if entities.contains_key(name_str.as_str()) {
            NodeKind::Entity
        } else {
            NodeKind::Type
        };
        assert(kind == span_kind(span@.name, ents));
        let (mut tops, id) = type_node_op_list(path, file_id, span.name.as_slice(), kind);
        if id.len() > 0 {
            let ghost a = op_views(tops@);
            ops.append(&mut tops);
            assert(op_views(ops@) =~= o0 + a);
            push_header_ops(ops, lang, id.as_slice(), span.header.as_slice());
            let members = extract_curly_members(span.body.as_slice(), lang);
            push_member_ops(ops, id.as_slice(), members);
            push_import_ops(ops, id.as_slice(), span.body.as_slice(), imports);
            assert(op_views(ops@) =~= o0 + span_ops(path@, file_id@, span@, iv, lang, ents));
        } else {
            assert(op_views(ops@) =~= o0 + span_ops(path@, file_id@, span@, iv, lang, ents));
        }
        i += 1;
    }
    assert(sv.take(spans@.len() as int) =~= sv);
}

/// The words a brace language's declarations start with.
pub open spec fn brace_keywords(lang: BraceLanguage) -> Seq<Seq<char>> {
    match lang {
        BraceLanguage::Typescript | BraceLanguage::Java => seq!["class"@, "interface"@],
        BraceLanguage::Kotlin => seq!["class"@, "interface"@, "object"@],
        BraceLanguage::Csharp => seq!["class"@, "interface"@, "struct"@, "record"@],
        BraceLanguage::Rust => seq!["struct"@, "enum"@, "trait"@],
        BraceLanguage::Cpp => seq!["class"@, "struct"@],
        BraceLanguage::Swift => seq!["class"@, "struct"@, "protocol"@, "enum"@, "actor"@],
        BraceLanguage::Php => seq!["class"@, "interface"@, "trait"@],
        BraceLanguage::Scala => seq!["class"@, "object"@, "trait"@, "case"@],
        BraceLanguage::Dart => seq!["class"@, "mixin"@, "enum"@],
        BraceLanguage::Go => Seq::empty(),
    }
}

fn keyword_list(lang: BraceLanguage) -> (r: Vec<&'static str>)
    ensures
        kw_views(r@) == brace_keywords(lang),
{
    let mut v: Vec<&'static str> = Vec::new();
    match lang {
        BraceLanguage::Typescript | BraceLanguage::Java => {
            v.push("class");
            v.push("interface");
        },
        BraceLanguage::Kotlin => {
            v.push("class");
            v.push("interface");
            v.push("object");
        },
        BraceLanguage::Csharp => {
            v.push("class");
            v.push("interface");
            v.push("struct");
            v.push("record");
        },
        BraceLanguage::Rust => {
            v.push("struct");
            v.push("enum");
            v.push("trait");
        },
        BraceLanguage::Cpp => {
            v.push("class");
            v.push("struct");
        },
        BraceLanguage::Swift => {
            v.push("class");
            v.push("struct");
            v.push("protocol");
            v.push("enum");
            v.push("actor");
        },
        BraceLanguage::Php => {
            v.push("class");
            v.push("interface");
            v.push("trait");
        },
        BraceLanguage::Scala => {
            v.push("class");
            v.push("object");
            v.push("trait");
            v.push("case");
        },
        BraceLanguage::Dart => {
            v.push("class");
            v.push("mixin");
            v.push("enum");
        },
        BraceLanguage::Go => {},
    }
    assert(kw_views(v@) =~= brace_keywords(lang));
    v
}

/// The spans of a brace-language file.
pub open spec fn lang_spans(content: Seq<char>, lang: BraceLanguage) -> Seq<SpanView> {
    type_spans(content, brace_keywords(lang))
}

/// The updates of a brace-language file: its file node, then its spans'.
pub open spec fn brace_file_ops(
    path: Seq<char>,
    content: Seq<char>,
    imports: Seq<(Seq<char>, Option<Seq<char>>)>,
    lang: BraceLanguage,
    entities: Set<Seq<char>>,
) -> Seq<OpView> {
    seq![OpView::Upsert(file_node(path))] + spans_ops(path, file_id_of(path), lang_spans(content, lang), imports, lang, entities)
}

fn brace_file_op_list(path: &str, content: &[char], imports: &Vec<ImportRef>, lang: BraceLanguage, entities: &KeySet) -> (r: (Vec<GraphOp>, usize))
    ensures
        op_views(r.0@) == brace_file_ops(path@, content@, import_views(imports@), lang, crate::graph::key_set(entities@)),
        r.1 == lang_spans(content@, lang).len(),
{
    let (file_op, file_id) = file_node_op(path);
    let mut ops: Vec<GraphOp> = Vec::new();
    ops.push(file_op);
    let kws = keyword_list(lang);
    let spans = extract_brace_type_spans(content, kws.as_slice());
    push_spans_ops(&mut ops, path, &file_id, &spans, imports, lang, entities);
    (ops, spans.len())
}


/// The state of the scan for annotated Java types: the names found and
/// whether an annotation line is waiting for its declaration.
pub open spec fn annotated_scan(ls: Seq<Seq<char>>, ann: Seq<char>) -> (Set<Seq<char>>, bool)
    decreases ls.len(),
{
    if ls.len() == 0 {
        (Set::empty(), false)
    } else {
        let (found, pending) = annotated_scan(ls.drop_last(), ann);
        let t = trim(ls.last());
        if t.len() == 0 {
            (found, pending)
        } else {
            let inline = crate::strs::contains_str(t, ann);
            let starts = crate::text::has_prefix(t, ann);
            if starts && !crate::strs::contains_str(t, "class "@) && !crate::strs::contains_str(t, "interface "@) {
                (found, true)
            } else {
                let pending2 = pending || starts;
                let name = match keyword_name(t, "class"@) {
                    Some(n) => Some(n),
                    None => keyword_name(t, "interface"@),
                };
                match name {
                    Some(n) => (if pending2 || inline {
                        found.insert(n)
                    } else {
                        found
                    }, false),
                    None => (found, if !crate::text::has_prefix(t, "@"@) {
                        false
                    } else {
                        pending2
                    }),
                }
            }
        }
    }
}

/// The class and interface names carrying `annotation`, on the declaration
/// line or on the annotation lines just before it.
pub fn annotated_java_types(content: &[char], annotation: &str) -> (r: KeySet)
    ensures
        sorted_keys(r@),
        crate::graph::key_set(r@) == annotated_scan(lines(content@), annotation@).0,
{
    let ls = lines_of(content);
    let ghost lv = seqs_view(ls@);
    let ann = chars_of(annotation);
    let mut found: KeySet = KeyMap::new();
    let mut pending = false;
    let mut i: usize = 0;
    while i < ls.len()
        invariant
            i <= ls@.len(),
            lv == seqs_view(ls@),
            ann@ == annotation@,
            sorted_keys(found@),
            crate::graph::key_set(found@) == annotated_scan(lv.take(i as int), annotation@).0,
            pending == annotated_scan(lv.take(i as int), annotation@).1,
        decreases ls.len() - i,
    {
        proof {
            let t = lv.take(i + 1);
            assert(t.drop_last() =~= lv.take(i as int));
            assert(t.last() == ls@[i as int]@);
        }
        let ghost f0 = found@;
        let t = trim_ws(ls[i].as_slice());
        if t.len() > 0 {
            let inline = crate::strs::contains_chars(t.as_slice(), ann.as_slice());
            let starts = crate::text::starts_with(t.as_slice(), ann.as_slice());
            if starts && !crate::strs::contains_lit(t.as_slice(), "class ") && !crate::strs::contains_lit(t.as_slice(), "interface ") {
                pending = true;
            } else {
                let pending2 = pending || starts;
                let name = match after_keyword(t.as_slice(), "class") {
                    Some(n) => Some(n),
                    None => after_keyword(t.as_slice(), "interface"),
                };
                match name {
                    Some(n) => {
                        if pending2 || inline {
                            let key = string_of(n.as_slice());
                            found.insert(key, ());
                            proof {
                                lemma_insert_entry(f0, n@, ());
                                assert(found@ == crate::keymap::insert_entry(f0, n@, ()));
                                assert forall|k: Seq<char>| crate::graph::key_set(found@).contains(k) == crate::graph::key_set(f0).insert(n@).contains(k) by {
                                    assert(has_key(found@, k) <==> (has_key(f0, k) || k == n@));
                                }
                                assert(crate::graph::key_set(found@) =~= crate::graph::key_set(f0).insert(n@));
                            }
                        }
                        pending = false;
                    },
                    None => {
                        if !crate::text::starts_with(t.as_slice(), chars_of("@").as_slice()) {
                            pending = false;
                        } else {
                            pending = pending2;
                        }
                    },
                }
            }
        }
        i += 1;
    }
    assert(lv.take(ls@.len() as int) =~= lv);
    found
}

/// The references a file without types makes to each imported name.
pub open spec fn file_import_ops(file_id: Seq<char>, imports: Seq<(Seq<char>, Option<Seq<char>>)>) -> Seq<OpView> {
    imports.map_values(|p: (Seq<char>, Option<Seq<char>>)| OpView::Reference(file_id, p.0, p.0, EdgeKind::Imports, p.1))
}

fn push_file_import_ops(ops: &mut Vec<GraphOp>, file_id: &String, imports: &Vec<ImportRef>)
    ensures
        op_views(final(ops)@) == op_views(old(ops)@) + file_import_ops(file_id@, import_views(imports@)),
{
    let ghost start = op_views(ops@);
    let ghost iv = import_views(imports@);
    let mut i: usize = 0;
    while i < imports.len()
        invariant
            i <= imports@.len(),
            iv == import_views(imports@),
            op_views(ops@) == start + file_import_ops(file_id@, iv.take(i as int)),
        decreases imports.len() - i,
    {
        let (target, layer) = &imports[i];
        let ghost o0 = op_views(ops@);
        ops.push(GraphOp::Reference(file_id.clone(), target.clone(), target.clone(), EdgeKind::Imports, crate::model::clone_opt(layer)));
        assert(iv[i as int] == (target@, opt_view(*layer)));
        assert(op_views(ops@) =~= o0.push(OpView::Reference(file_id@, target@, target@, EdgeKind::Imports, opt_view(*layer))));
        assert(file_import_ops(file_id@, iv.take(i + 1)) =~= file_import_ops(file_id@, iv.take(i as int)).push(
            OpView::Reference(file_id@, target@, target@, EdgeKind::Imports, opt_view(*layer)),
        ));
        i += 1;
    }
    assert(iv.take(imports@.len() as int) =~= iv);
}

/// The updates of a TypeScript or JavaScript file: its brace-language
/// updates, and when it declares no type, references from the file to each
/// imported symbol.
pub open spec fn typescript_ops(path: Seq<char>, content: Seq<char>) -> Seq<OpView> {
    let imports = ts_import_refs(lines(content));
    brace_file_ops(path, content, imports, BraceLanguage::Typescript, Set::empty()) + if lang_spans(
        content,
        BraceLanguage::Typescript,
    ).len() == 0 {
        file_import_ops(file_id_of(path), imports)
    } else {
        Seq::empty()
    }
}

/// Parses a TypeScript or JavaScript file into the graph.
pub fn parse_typescript(graph: &mut Graph, path: &str, content: &str)
    ensures
        graph_view(*final(graph)) == apply_all(graph_view(*old(graph)), typescript_ops(path@, content@)),
{
    let cv = chars_of(content);
    let imports = collect_ts_imports(cv.as_slice());
    let empty: KeySet = KeyMap::new();
    assert(crate::graph::key_set(empty@) =~= Set::<Seq<char>>::empty());
    let (mut ops, n) = brace_file_op_list(path, cv.as_slice(), &imports, BraceLanguage::Typescript, &empty);
    if n == 0 {
        let (_, file_id) = file_node_op(path);
        push_file_import_ops(&mut ops, &file_id, &imports);
    }
    assert(op_views(ops@) =~= typescript_ops(path@, content@));
    graph.apply_ops(&ops);
}

/// The updates of a Java file: brace-language updates with `@Entity` types as entities.
pub open spec fn java_ops(path: Seq<char>, content: Seq<char>) -> Seq<OpView> {
    brace_file_ops(
        path,
        content,
        dotted_import_refs(lines(content), "import "@),
        BraceLanguage::Java,
        annotated_scan(lines(content), "@Entity"@).0,
    )
}

/// Parses a Java file into the graph.
pub fn parse_java(graph: &mut Graph, path: &str, content: &str)
    ensures
        graph_view(*final(graph)) == apply_all(graph_view(*old(graph)), java_ops(path@, content@)),
{
    let cv = chars_of(content);
    let imports = collect_java_style_imports(cv.as_slice(), "import ");
    let entities = annotated_java_types(cv.as_slice(), "@Entity");
    let (ops, _) = brace_file_op_list(path, cv.as_slice(), &imports, BraceLanguage::Java, &entities);
    graph.apply_ops(&ops);
}

/// The updates of a Kotlin (`dotted` is `import `) or C# (`using `) file.
pub open spec fn dotted_lang_ops(path: Seq<char>, content: Seq<char>, lang: BraceLanguage, prefix: Seq<char>) -> Seq<OpView> {
    brace_file_ops(path, content, dotted_import_refs(lines(content), prefix), lang, Set::empty())
}

/// Parses a Kotlin file into the graph.
pub fn parse_kotlin(graph: &mut Graph, path: &str, content: &str)
    ensures
        graph_view(*final(graph)) == apply_all(
            graph_view(*old(graph)),
            dotted_lang_ops(path@, content@, BraceLanguage::Kotlin, "import "@),
        ),
{
    let cv = chars_of(content);
    let imports = collect_java_style_imports(cv.as_slice(), "import ");
    let empty: KeySet = KeyMap::new();
    assert(crate::graph::key_set(empty@) =~= Set::<Seq<char>>::empty());
    let (ops, _) = brace_file_op_list(path, cv.as_slice(), &imports, BraceLanguage::Kotlin, &empty);
    graph.apply_ops(&ops);
}

/// Parses a C# file into the graph.
pub fn parse_csharp(graph: &mut Graph, path: &str, content: &str)
    ensures
        graph_view(*final(graph)) == apply_all(
            graph_view(*old(graph)),
            dotted_lang_ops(path@, content@, BraceLanguage::Csharp, "using "@),
        ),
{
    let cv = chars_of(content);
    let imports = collect_java_style_imports(cv.as_slice(), "using ");
    let empty: KeySet = KeyMap::new();
    assert(crate::graph::key_set(empty@) =~= Set::<Seq<char>>::empty());
    let (ops, _) = brace_file_op_list(path, cv.as_slice(), &imports, BraceLanguage::Csharp, &empty);
    graph.apply_ops(&ops);
}

/// The updates of a file of a brace language whose imports are read line by line.
pub open spec fn line_import_lang_ops(path: Seq<char>, content: Seq<char>, lang: BraceLanguage, style: ImportStyle, prefix: Seq<char>) -> Seq<OpView> {
    brace_file_ops(path, content, all_line_refs(lines(content), style, prefix), lang, Set::empty())
}

fn parse_line_import_lang(graph: &mut Graph, path: &str, content: &str, lang: BraceLanguage, style: ImportStyle, prefix: &str)
    ensures
        graph_view(*final(graph)) == apply_all(graph_view(*old(graph)), line_import_lang_ops(path@, content@, lang, style, prefix@)),
{
    let cv = chars_of(content);
    let imports = collect_imports(cv.as_slice(), style, prefix);
    let empty: KeySet = KeyMap::new();
    assert(crate::graph::key_set(empty@) =~= Set::<Seq<char>>::empty());
    let (ops, _) = brace_file_op_list(path, cv.as_slice(), &imports, lang, &empty);
    graph.apply_ops(&ops);
}

/// Parses a C or C++ file into the graph.
pub fn parse_cpp(graph: &mut Graph, path: &str, content: &str)
    ensures
        graph_view(*final(graph)) == apply_all(
            graph_view(*old(graph)),
            line_import_lang_ops(path@, content@, BraceLanguage::Cpp, ImportStyle::Cpp, ""@),
        ),
{
    parse_line_import_lang(graph, path, content, BraceLanguage::Cpp, ImportStyle::Cpp, "");
}

/// Parses a Swift file into the graph.
pub fn parse_swift(graph: &mut Graph, path: &str, content: &str)
    ensures
        graph_view(*final(graph)) == apply_all(
            graph_view(*old(graph)),
            line_import_lang_ops(path@, content@, BraceLanguage::Swift, ImportStyle::Simple, "import "@),
        ),
{
    parse_line_import_lang(graph, path, content, BraceLanguage::Swift, ImportStyle::Simple, "import ");
}

/// Parses a PHP file into the graph.
pub fn parse_php(graph: &mut Graph, path: &str, content: &str)
    ensures
        graph_view(*final(graph)) == apply_all(
            graph_view(*old(graph)),
            line_import_lang_ops(path@, content@, BraceLanguage::Php, ImportStyle::Php, ""@),
        ),
{
    parse_line_import_lang(graph, path, content, BraceLanguage::Php, ImportStyle::Php, "");
}

/// Parses a Scala file into the graph.
pub fn parse_scala(graph: &mut Graph, path: &str, content: &str)
    ensures
        graph_view(*final(graph)) == apply_all(
            graph_view(*old(graph)),
            line_import_lang_ops(path@, content@, BraceLanguage::Scala, ImportStyle::Simple, "import "@),
        ),
{
    parse_line_import_lang(graph, path, content, BraceLanguage::Scala, ImportStyle::Simple, "import ");
}

/// Parses a Dart file into the graph.
pub fn parse_dart(graph: &mut Graph, path: &str, content: &str)
    ensures
        graph_view(*final(graph)) == apply_all(
            graph_view(*old(graph)),
            line_import_lang_ops(path@, content@, BraceLanguage::Dart, ImportStyle::Simple, "import "@),
        ),
{
    parse_line_import_lang(graph, path, content, BraceLanguage::Dart, ImportStyle::Simple, "import ");
}


/// The `impl Trait for Type` edge a Rust line declares, if any.
pub open spec fn impl_line_ops(line: Seq<char>) -> Seq<OpView> {
    match crate::strs::strip_prefix(trim(line), "impl "@) {
        Some(rest) => match crate::strs::find_str(rest, " for "@) {
            Some(i) => {
                let tr = trim(first_piece(trim(rest.take(i)), in_set("<"@)));
                let ty = first_piece(trim(rest.skip(i + 5)), in_set("<{ "@));
                if tr.len() > 0 && ty.len() > 0 {
                    seq![OpView::Link("type:"@ + ty, "type:"@ + tr, EdgeKind::Implements)]
                } else {
                    Seq::empty()
                }
            },
            None => Seq::empty(),
        },
        None => Seq::empty(),
    }
}

/// The `impl Trait for Type` edges of all lines, in order.
pub open spec fn impl_ops(ls: Seq<Seq<char>>) -> Seq<OpView>
    decreases ls.len(),
{
    if ls.len() == 0 {
        Seq::empty()
    } else {
        impl_ops(ls.drop_last()) + impl_line_ops(ls.last())
    }
}

/// The updates of a Rust file: brace-language updates, then each
/// `impl Trait for Type` edge.
pub open spec fn rust_ops(path: Seq<char>, content: Seq<char>) -> Seq<OpView> {
    line_import_lang_ops(path, content, BraceLanguage::Rust, ImportStyle::Rust, ""@) + impl_ops(lines(content))
}

fn push_impl_line(ops: &mut Vec<GraphOp>, line: &[char])
    ensures
        op_views(final(ops)@) == op_views(old(ops)@) + impl_line_ops(line@),
{
    let ghost o0 = op_views(ops@);
    let t = trim_ws(line);
    match crate::strs::strip_prefix_str(t.as_slice(), "impl ") {
        Some(rest) => {
            let sep = chars_of(" for ");
            match crate::strs::find_chars(rest.as_slice(), sep.as_slice()) {
                Some(i) => {
                    proof {
                        reveal_strlit(" for ");
                        crate::imports::lemma_find_occurs(rest@, sep@, 0);
                        assert(crate::strs::occurs_at(rest@, sep@, i as int));
                        assert(sep@.len() == 5);
                    }
                    let head = crate::strs::take_chars(rest.as_slice(), i);
                    let tail0 = crate::graph::slice_from(rest.as_slice(), i);
                    let tail = crate::graph::slice_from(tail0.as_slice(), 5);
                    assert(tail@ =~= rest@.skip(i + 5));
                    let h1 = trim_ws(head.as_slice());
                    let h2 = first_piece_set(h1.as_slice(), chars_of("<").as_slice());
                    let tr = trim_ws(h2.as_slice());
                    let t1 = trim_ws(tail.as_slice());
                    let ty = first_piece_set(t1.as_slice(), chars_of("<{ ").as_slice());
                    if tr.len() > 0 && ty.len() > 0 {
                        let a = type_id(ty.as_slice());
                        let b = type_id(tr.as_slice());
                        ops.push(GraphOp::Link(string_of(a.as_slice()), string_of(b.as_slice()), EdgeKind::Implements));
                    }
                },
                None => {},
            }
        },
        None => {},
    }
    assert(op_views(ops@) =~= o0 + impl_line_ops(line@));
}

/// Parses a Rust file into the graph.
pub fn parse_rust(graph: &mut Graph, path: &str, content: &str)
    ensures
        graph_view(*final(graph)) == apply_all(graph_view(*old(graph)), rust_ops(path@, content@)),
{
    let cv = chars_of(content);
    let imports = collect_imports(cv.as_slice(), ImportStyle::Rust, "");
    let empty: KeySet = KeyMap::new();
    assert(crate::graph::key_set(empty@) =~= Set::<Seq<char>>::empty());
    let (mut ops, _) = brace_file_op_list(path, cv.as_slice(), &imports, BraceLanguage::Rust, &empty);
    let ghost base = op_views(ops@);
    let ls = lines_of(cv.as_slice());
    let ghost lv = seqs_view(ls@);
    let mut i: usize = 0;
    while i < ls.len()
        invariant
            i <= ls@.len(),
            lv == seqs_view(ls@),
            op_views(ops@) == base + impl_ops(lv.take(i as int)),
        decreases ls.len() - i,
    {
        proof {
            let t = lv.take(i + 1);
            assert(t.drop_last() =~= lv.take(i as int));
            assert(t.last() == ls@[i as int]@);
        }
        push_impl_line(&mut ops, ls[i].as_slice());
        i += 1;
    }
    assert(lv.take(ls@.len() as int) =~= lv);
    assert(op_views(ops@) =~= rust_ops(path@, content@));
    graph.apply_ops(&ops);
}

} // verus!
