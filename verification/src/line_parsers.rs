//! Recognizers that read a file line by line with a little state: Python,
//! Prisma, Go, SQL and Ruby.
use crate::graph::Graph;
use crate::imports::{after_last_str, before_first_str, lemma_find_occurs};
use crate::model::{opt_view, EdgeKind, Member, MemberKind, MemberView, Node, NodeKind, NodeView};
use crate::ops::{apply_all, graph_view, op_views, GraphOp, OpView};
use crate::parsers::{clean_type_name, file_id_of, file_node, file_node_op, type_node_ops, type_node_op_list};
use crate::recognize::{count_char, count_of, go_type_name, go_type_of, qrefs, qualified_type_refs, pairs_view, layer_for_reference, layer_of_reference, starts_upper};
use crate::strs::{
    contains_lit, contains_str, find_chars, find_str, first_piece, first_piece_set, in_set, is_ws, lines, lines_of,
    second_piece, second_piece_set, seqs_view, split_whitespace, strip_prefix, strip_prefix_str, trim, trim_by, trim_set,
    trim_start_by, trim_start_ws, trim_ws, words,
};
use crate::text::{chars_of, eq_lit, push_all, push_str, string_of};
use vstd::prelude::*;

verus! {

broadcast use vstd::string::group_string_axioms;

/// The text after the first occurrence of `t` (empty when there is none).
pub open spec fn after_first_str(s: Seq<char>, t: Seq<char>) -> Seq<char> {
    match find_str(s, t) {
        Some(i) => s.skip(i + t.len()),
        None => Seq::empty(),
    }
}

fn after_first_lit(s: &[char], t: &str) -> (r: Vec<char>)
    ensures
        r@ == after_first_str(s@, t@),
{
    let tv = chars_of(t);
    match find_chars(s, tv.as_slice()) {
        Some(i) => {
            proof {
                lemma_find_occurs(s@, tv@, 0);
                assert(crate::strs::occurs_at(s@, tv@, i as int));
            }
            let a = crate::graph::slice_from(s, i);
            let r = crate::graph::slice_from(a.as_slice(), tv.len());
            assert(r@ =~= s@.skip(i + tv@.len()));
            r
        },
        None => Vec::new(),
    }
}

fn before_first(s: &[char], t: &str) -> (r: Vec<char>)
    ensures
        r@ == before_first_str(s@, t@),
{
    let tv = chars_of(t);
    match find_chars(s, tv.as_slice()) {
        Some(i) => {
            proof {
                lemma_find_occurs(s@, tv@, 0);
            }
            crate::strs::take_chars(s, i)
        },
        None => {
            let r = crate::graph::slice_from(s, 0);
            assert(s@.skip(0) =~= s@);
            r
        },
    }
}

fn type_id_of(name: &[char]) -> (r: Vec<char>)
    ensures
        r@ == "type:"@ + name@,
{
    let mut v: Vec<char> = Vec::new();
    push_str(&mut v, "type:");
    push_all(&mut v, name);
    v
}

/// The id `insert_type_node` gives a declared name: empty when the cleaned name is.
pub open spec fn declared_id(name: Seq<char>) -> Seq<char> {
    if clean_type_name(name).len() == 0 {
        Seq::empty()
    } else {
        "type:"@ + clean_type_name(name)
    }
}

/// The state of the Python scan: updates so far and the class being read.
pub struct PyState {
    pub ops: Seq<OpView>,
    pub current: Option<Seq<char>>,
}

/// The class part of a Python line: a `class` line records the class (an
/// entity when it derives from `models.Model`) and its base; an unnamed
/// `class` line is skipped altogether.
pub open spec fn py_class(st: PyState, path: Seq<char>, t: Seq<char>) -> (PyState, bool) {
    match strip_prefix(t, "class "@) {
        Some(rest) => {
            let name = trim(first_piece(rest, in_set("(:"@)));
            if name.len() == 0 {
                (st, true)
            } else {
                let bases = match second_piece(rest, in_set("("@)) {
                    Some(v) => first_piece(v, in_set(")"@)),
                    None => Seq::empty(),
                };
                let kind = if contains_str(bases, "models.Model"@) {
                    NodeKind::Entity
                } else {
                    NodeKind::Type
                };
                let id = declared_id(name);
                let ext = if trim(bases).len() > 0 {
                    seq![OpView::Link(id, "type:"@ + trim(bases), EdgeKind::Extends)]
                } else {
                    Seq::empty()
                };
                (PyState { ops: st.ops + type_node_ops(path, file_id_of(path), name, kind) + ext, current: Some(id) }, false)
            }
        },
        None => (st, false),
    }
}

/// The target of a `ForeignKey(` reference on a line.
pub open spec fn foreign_key_target(t: Seq<char>) -> Seq<char> {
    trim_by(first_piece(before_first_str(after_first_str(t, "ForeignKey("@), "ForeignKey("@), in_set(",)"@)), in_set("\"' "@))
}

/// One Python line: its class part, then a `ForeignKey(` reference links
/// the current class (or the file) to the referenced model.
pub open spec fn py_line(st: PyState, path: Seq<char>, line: Seq<char>) -> PyState {
    let t = trim_start_by(line, |c: char| is_ws(c));
    let (st1, skip) = py_class(st, path, t);
    if skip {
        st
    } else if contains_str(t, "ForeignKey("@) && foreign_key_target(t).len() > 0 {
        let source = match st1.current {
            Some(c) => c,
            None => file_id_of(path),
        };
        PyState { ops: st1.ops.push(OpView::Link(source, "type:"@ + foreign_key_target(t), EdgeKind::RelatesTo)), ..st1 }
    } else {
        st1
    }
}

/// The Python scan over lines.
pub open spec fn py_scan(ls: Seq<Seq<char>>, path: Seq<char>) -> PyState
    decreases ls.len(),
{
    if ls.len() == 0 {
        PyState { ops: Seq::empty(), current: None }
    } else {
        py_line(py_scan(ls.drop_last(), path), path, ls.last())
    }
}

/// The updates of a Python file: its file node, then its lines'.
pub open spec fn python_ops(path: Seq<char>, content: Seq<char>) -> Seq<OpView> {
    seq![OpView::Upsert(file_node(path))] + py_scan(lines(content), path).ops
}

/// Parses a Python file into the graph.
pub fn parse_python(graph: &mut Graph, path: &str, content: &str)
    ensures
        graph_view(*final(graph)) == apply_all(graph_view(*old(graph)), python_ops(path@, content@)),
{
    let cv = chars_of(content);
    let (file_op, file_id) = file_node_op(path);
    let mut ops: Vec<GraphOp> = Vec::new();
    ops.push(file_op);
    let ghost head = op_views(ops@);
    let ls = lines_of(cv.as_slice());
    let ghost lv = seqs_view(ls@);
    let mut current: Option<Vec<char>> = None;
    let mut i: usize = 0;
    while i < ls.len()
        invariant
            i <= ls@.len(),
            lv == seqs_view(ls@),
            file_id@ == file_id_of(path@),
            head == seq![OpView::Upsert(file_node(path@))],
            op_views(ops@) == head + py_scan(lv.take(i as int), path@).ops,
            match current {
                Some(c) => py_scan(lv.take(i as int), path@).current == Some(c@),
                None => py_scan(lv.take(i as int), path@).current is None,
            },
        decreases ls.len() - i,
    {
        let line = ls[i].as_slice();
        let ghost st0 = py_scan(lv.take(i as int), path@);
        let ghost o0 = op_views(ops@);
        proof {
            let t = lv.take(i + 1);
            assert(t.drop_last() =~= lv.take(i as int));
            assert(t.last() == line@);
        }
        let t = trim_start_ws(line);
        let mut skip = false;
        match strip_prefix_str(t.as_slice(), "class ") {
            Some(rest) => {
                let p0 = first_piece_set(rest.as_slice(), chars_of("(:").as_slice());
                let name = trim_ws(p0.as_slice());
                if name.len() == 0 {
                    skip = true;
                } else {
                    let bases = match second_piece_set(rest.as_slice(), chars_of("(").as_slice()) {
                        Some(v) => first_piece_set(v.as_slice(), chars_of(")").as_slice()),
                        None => Vec::new(),
                    };
                    let kind = if contains_lit(bases.as_slice(), "models.Model") {
                        NodeKind::Entity
                    } else {
                        NodeKind::Type
                    };
                    let (mut tops, id) = type_node_op_list(path, &file_id, name.as_slice(), kind);
                    let ghost tv = op_views(tops@);
                    ops.append(&mut tops);
                    assert(op_views(ops@) =~= o0 + tv);
                    let tb = trim_ws(bases.as_slice());
                    if tb.len() > 0 {
                        let target = type_id_of(tb.as_slice());
                        ops.push(GraphOp::Link(string_of(id.as_slice()), string_of(target.as_slice()), EdgeKind::Extends));
                        assert(op_views(ops@) =~= o0 + tv + seq![OpView::Link(id@, "type:"@ + tb@, EdgeKind::Extends)]);
                    } else {
                        assert(op_views(ops@) =~= o0 + tv + Seq::<OpView>::empty());
                    }
                    current = Some(id);
                }
            },
            None => {},
        }
        proof {
            let (st1, sk) = py_class(st0, path@, t@);
            assert(sk == skip);
            if !skip {
                assert(op_views(ops@) =~= head + st1.ops);
                assert(match current {
                    Some(c) => st1.current == Some(c@),
                    None => st1.current is None,
                });
            }
        }
        if !skip && contains_lit(t.as_slice(), "ForeignKey(") {
            let a = after_first_lit(t.as_slice(), "ForeignKey(");
            let b = before_first(a.as_slice(), "ForeignKey(");
            let c = first_piece_set(b.as_slice(), chars_of(",)").as_slice());
            let target = trim_set(c.as_slice(), chars_of("\"' ").as_slice());
            if target.len() > 0 {
                let source = match &current {
                    Some(cur) => string_of(cur.as_slice()),
                    None => file_id.clone(),
                };
                let tid = type_id_of(target.as_slice());
                let ghost o1 = op_views(ops@);
                let ghost sv = source@;
                ops.push(GraphOp::Link(source, string_of(tid.as_slice()), EdgeKind::RelatesTo));
                assert(target@ == foreign_key_target(t@));
                assert(op_views(ops@) =~= o1.push(OpView::Link(sv, "type:"@ + target@, EdgeKind::RelatesTo)));
            }
        }
        proof {
            let st1 = py_line(st0, path@, line@);
            assert(op_views(ops@) =~= head + st1.ops);
        }
        i += 1;
    }
    assert(lv.take(ls@.len() as int) =~= lv);
    assert(op_views(ops@) =~= python_ops(path@, content@));
    graph.apply_ops(&ops);
}


/// The node of a Prisma model or SQL table.
pub open spec fn data_node(id: Seq<char>, name: Seq<char>, path: Seq<char>) -> NodeView {
    NodeView { id, name, kind: NodeKind::Entity, path, layer: Some("data"@) }
}

/// One Prisma line: `model Name` starts a model; `}` ends it; inside a
/// model, a field whose type starts upper case relates the model to that type.
pub open spec fn prisma_line(st: PyState, path: Seq<char>, line: Seq<char>) -> PyState {
    let t = trim(line);
    let model_words = match strip_prefix(t, "model "@) {
        Some(rest) => words(rest),
        None => Seq::empty(),
    };
    if model_words.len() > 0 {
        let name = model_words[0];
        let id = "type:"@ + name;
        PyState { ops: st.ops.push(OpView::Upsert(data_node(id, name, path))), current: Some(id) }
    } else if t == "}"@ {
        PyState { current: None, ..st }
    } else {
        match st.current {
            Some(src) => {
                let f = words(t);
                if f.len() >= 2 && starts_upper(f[1]) {
                    PyState {
                        ops: st.ops.push(OpView::Link(src, "type:"@ + crate::strs::trim_end_lit(f[1], "[]"@), EdgeKind::RelatesTo)),
                        ..st
                    }
                } else {
                    st
                }
            },
            None => st,
        }
    }
}

/// The Prisma scan over lines.
pub open spec fn prisma_scan(ls: Seq<Seq<char>>, path: Seq<char>) -> PyState
    decreases ls.len(),
{
    if ls.len() == 0 {
        PyState { ops: Seq::empty(), current: None }
    } else {
        prisma_line(prisma_scan(ls.drop_last(), path), path, ls.last())
    }
}

fn data_node_of(id: &[char], name: &[char], path: &str) -> (r: Node)
    ensures
        r@ == data_node(id@, name@, path@),
{
    Node {
        id: string_of(id),
        name: string_of(name),
        kind: NodeKind::Entity,
        path: crate::text::owned(path),
        layer: Some(crate::text::owned("data")),
    }
}

/// Parses a Prisma schema into the graph.
pub fn parse_prisma(graph: &mut Graph, path: &str, content: &str)
    ensures
        graph_view(*final(graph)) == apply_all(graph_view(*old(graph)), prisma_scan(lines(content@), path@).ops),
{
    let cv = chars_of(content);
    let mut ops: Vec<GraphOp> = Vec::new();
    let ls = lines_of(cv.as_slice());
    let ghost lv = seqs_view(ls@);
    let mut current: Option<Vec<char>> = None;
    let mut i: usize = 0;
    while i < ls.len()
        invariant
            i <= ls@.len(),
            lv == seqs_view(ls@),
            op_views(ops@) == prisma_scan(lv.take(i as int), path@).ops,
            match current {
                Some(c) => prisma_scan(lv.take(i as int), path@).current == Some(c@),
                None => prisma_scan(lv.take(i as int), path@).current is None,
            },
        decreases ls.len() - i,
    {
        let line = ls[i].as_slice();
        let ghost o0 = op_views(ops@);
        proof {
            let t = lv.take(i + 1);
            assert(t.drop_last() =~= lv.take(i as int));
            assert(t.last() == line@);
        }
        let t = trim_ws(line);
        let model_words = match strip_prefix_str(t.as_slice(), "model ") {
            Some(rest) => split_whitespace(rest.as_slice()),
            None => Vec::new(),
        };
        assert(seqs_view(model_words@).len() == model_words@.len());
        if model_words.len() > 0 {
            assert(seqs_view(model_words@)[0] == model_words@[0]@);
            let id = type_id_of(model_words[0].as_slice());
            let node = data_node_of(id.as_slice(), model_words[0].as_slice(), path);
            let ghost nv = node@;
            ops.push(GraphOp::Upsert(node));
            assert(op_views(ops@) =~= o0.push(OpView::Upsert(nv)));
            current = Some(id);
        } else if eq_lit(t.as_slice(), "}") {
            current = None;
        } else {
            match &current {
                Some(src) => {
                    let f = split_whitespace(t.as_slice());
                    if f.len() >= 2 && crate::recognize::starts_uppercase(f[1].as_slice()) {
                        assert(seqs_view(f@)[1] == f@[1]@);
                        let field = crate::strs::trim_end_str(f[1].as_slice(), "[]");
                        let target = type_id_of(field.as_slice());
                        ops.push(GraphOp::Link(string_of(src.as_slice()), string_of(target.as_slice()), EdgeKind::RelatesTo));
                        assert(op_views(ops@) =~= o0.push(OpView::Link(src@, "type:"@ + field@, EdgeKind::RelatesTo)));
                    }
                },
                None => {},
            }
        }
        i += 1;
    }
    assert(lv.take(ls@.len() as int) =~= lv);
    graph.apply_ops(&ops);
}

/// The state of the Go scan.
pub struct GoState {
    pub ops: Seq<OpView>,
    pub in_import: bool,
    pub current: Option<Seq<char>>,
    pub depth: nat,
}

/// References from a Go type's declaration line to qualified types.
pub open spec fn go_decl_refs(id: Seq<char>, path: Seq<char>, refs: Seq<(Seq<char>, Seq<char>)>) -> Seq<OpView> {
    refs.map_values(|r: (Seq<char>, Seq<char>)| OpView::Reference(id, r.1, path, EdgeKind::Imports, None))
}

/// References from a Go type's body line to qualified types, with the
/// layer the package qualifier suggests.
pub open spec fn go_body_refs(id: Seq<char>, refs: Seq<(Seq<char>, Seq<char>)>) -> Seq<OpView> {
    refs.map_values(
        |r: (Seq<char>, Seq<char>)| OpView::Reference(id, r.1, r.0 + "."@ + r.1, EdgeKind::Imports, layer_of_reference(r.0)),
    )
}

/// The Go type a line declares (`type X struct` or `type X interface`).
pub open spec fn go_declared(t: Seq<char>) -> Option<Seq<char>> {
    match go_type_of(t, "type "@, " struct"@) {
        Some(n) => Some(n),
        None => go_type_of(t, "type "@, " interface"@),
    }
}

/// One Go line.
pub open spec fn go_line(st: GoState, path: Seq<char>, line: Seq<char>) -> GoState {
    let t = trim(line);
    if t == "import ("@ {
        GoState { in_import: true, ..st }
    } else if st.in_import && t == ")"@ {
        GoState { in_import: false, ..st }
    } else {
        match go_declared(t) {
            Some(n) => {
                let id = declared_id(n);
                GoState {
                    ops: st.ops + type_node_ops(path, file_id_of(path), n, NodeKind::Type) + go_decl_refs(id, path, qrefs(t, 0)),
                    current: Some(id),
                    depth: crate::spans::sat_sub(count_of(t, '{'), count_of(t, '}')),
                    ..st
                }
            },
            None => match st.current {
                Some(src) => {
                    let depth = crate::spans::sat_sub(crate::spans::sat_add(st.depth, count_of(t, '{')), count_of(t, '}'));
                    GoState {
                        ops: st.ops + go_body_refs(src, qrefs(t, 0)),
                        depth,
                        current: if depth == 0 && t.contains('}') {
                            None
                        } else {
                            Some(src)
                        },
                        ..st
                    }
                },
                None => st,
            },
        }
    }
}

/// The Go scan over lines.
pub open spec fn go_scan(ls: Seq<Seq<char>>, path: Seq<char>) -> GoState
    decreases ls.len(),
{
    if ls.len() == 0 {
        GoState { ops: Seq::empty(), in_import: false, current: None, depth: 0 }
    } else {
        go_line(go_scan(ls.drop_last(), path), path, ls.last())
    }
}

/// The updates of a Go file: its file node, then its lines'.
pub open spec fn go_ops(path: Seq<char>, content: Seq<char>) -> Seq<OpView> {
    seq![OpView::Upsert(file_node(path))] + go_scan(lines(content), path).ops
}

fn push_go_refs(ops: &mut Vec<GraphOp>, id: &[char], path: &str, refs: &Vec<(Vec<char>, Vec<char>)>, decl: bool)
    ensures
        op_views(final(ops)@) == op_views(old(ops)@) + if decl {
            go_decl_refs(id@, path@, pairs_view(refs@))
        } else {
            go_body_refs(id@, pairs_view(refs@))
        },
{
    let ghost start = op_views(ops@);
    let ghost rv = pairs_view(refs@);
    let mut i: usize = 0;
    while i < refs.len()
        invariant
            i <= refs@.len(),
            rv == pairs_view(refs@),
            op_views(ops@) == start + if decl {
                go_decl_refs(id@, path@, rv.take(i as int))
            } else {
                go_body_refs(id@, rv.take(i as int))
            },
        decreases refs.len() - i,
    {
        let (q, target) = &refs[i];
        let ghost o0 = op_views(ops@);
        assert(rv[i as int] == (q@, target@));
        if decl {
            ops.push(GraphOp::Reference(string_of(id), string_of(target.as_slice()), crate::text::owned(path), EdgeKind::Imports, None));
            assert(op_views(ops@) =~= o0.push(OpView::Reference(id@, target@, path@, EdgeKind::Imports, None)));
            assert(go_decl_refs(id@, path@, rv.take(i + 1)) =~= go_decl_refs(id@, path@, rv.take(i as int)).push(
                OpView::Reference(id@, target@, path@, EdgeKind::Imports, None),
            ));
        } else {
            let mut tp: Vec<char> = Vec::new();
            push_all(&mut tp, q.as_slice());
            tp.push('.');
            push_all(&mut tp, target.as_slice());
            proof {
                reveal_strlit(".");
            }
            assert(tp@ =~= q@ + "."@ + target@);
            let layer = layer_for_reference(q.as_slice());
            let ghost lv = opt_view(layer);
            ops.push(GraphOp::Reference(string_of(id), string_of(target.as_slice()), string_of(tp.as_slice()), EdgeKind::Imports, layer));
            assert(op_views(ops@) =~= o0.push(OpView::Reference(id@, target@, q@ + "."@ + target@, EdgeKind::Imports, lv)));
            assert(go_body_refs(id@, rv.take(i + 1)) =~= go_body_refs(id@, rv.take(i as int)).push(
                OpView::Reference(id@, target@, q@ + "."@ + target@, EdgeKind::Imports, layer_of_reference(q@)),
            ));
        }
        i += 1;
    }
    assert(rv.take(refs@.len() as int) =~= rv);
}

/// Parses a Go file into the graph.
pub fn parse_go(graph: &mut Graph, path: &str, content: &str)
    ensures
        graph_view(*final(graph)) == apply_all(graph_view(*old(graph)), go_ops(path@, content@)),
{
    let cv = chars_of(content);
    let (file_op, file_id) = file_node_op(path);
    let mut ops: Vec<GraphOp> = Vec::new();
    ops.push(file_op);
    let ghost head = op_views(ops@);
    let ls = lines_of(cv.as_slice());
    let ghost lv = seqs_view(ls@);
    let mut in_import = false;
    let mut current: Option<Vec<char>> = None;
    let mut depth: usize = 0;
    let mut i: usize = 0;
    while i < ls.len()
        invariant
            i <= ls@.len(),
            lv == seqs_view(ls@),
            file_id@ == file_id_of(path@),
            head == seq![OpView::Upsert(file_node(path@))],
            op_views(ops@) == head + go_scan(lv.take(i as int), path@).ops,
            in_import == go_scan(lv.take(i as int), path@).in_import,
            depth == go_scan(lv.take(i as int), path@).depth,
            match current {
                Some(c) => go_scan(lv.take(i as int), path@).current == Some(c@),
                None => go_scan(lv.take(i as int), path@).current is None,
            },
        decreases ls.len() - i,
    {
        let line = ls[i].as_slice();
        let ghost o0 = op_views(ops@);
        proof {
            let t = lv.take(i + 1);
            assert(t.drop_last() =~= lv.take(i as int));
            assert(t.last() == line@);
        }
        let t = trim_ws(line);
        if eq_lit(t.as_slice(), "import (") {
            in_import = true;
        } else if in_import && eq_lit(t.as_slice(), ")") {
            in_import = false;
        } else {
            let declared = match go_type_name(t.as_slice(), "type ", " struct") {
                Some(n) => Some(n),
                None => go_type_name(t.as_slice(), "type ", " interface"),
            };
            match declared {
                Some(n) => {
                    let (mut tops, id) = type_node_op_list(path, &file_id, n.as_slice(), NodeKind::Type);
                    let ghost tv = op_views(tops@);
                    ops.append(&mut tops);
                    assert(op_views(ops@) =~= o0 + tv);
                    let refs = qualified_type_refs(t.as_slice());
                    push_go_refs(&mut ops, id.as_slice(), path, &refs, true);
                    current = Some(id);
                    depth = count_char(t.as_slice(), '{').saturating_sub(count_char(t.as_slice(), '}'));
                },
                None => {
                    match &current {
                        Some(src) => {
                            let refs = qualified_type_refs(t.as_slice());
                            push_go_refs(&mut ops, src.as_slice(), path, &refs, false);
                            depth = depth.saturating_add(count_char(t.as_slice(), '{'));
                            depth = depth.saturating_sub(count_char(t.as_slice(), '}'));
                        },
                        None => {},
                    }
                    if current.is_some() && depth == 0 && crate::strs::has_char(t.as_slice(), '}') {
                        current = None;
                    }
                },
            }
        }
        i += 1;
    }
    assert(lv.take(ls@.len() as int) =~= lv);
    assert(op_views(ops@) =~= go_ops(path@, content@));
    graph.apply_ops(&ops);
}


/// The number of bytes of `c` in UTF-8.
pub open spec fn utf8_len(c: char) -> nat {
    if (c as u32) < 0x80 {
        1
    } else if (c as u32) < 0x800 {
        2
    } else if (c as u32) < 0x10000 {
        3
    } else {
        4
    }
}

/// The number of bytes of `s` in UTF-8.
pub open spec fn byte_len(s: Seq<char>) -> nat
    decreases s.len(),
{
    if s.len() == 0 {
        0
    } else {
        byte_len(s.drop_last()) + utf8_len(s.last())
    }
}

/// A `create table` line, trimmed and without its trailing `;`.
pub open spec fn sql_trimmed(line: Seq<char>) -> Seq<char> {
    crate::strs::trim_end_lit(trim(line), ";"@)
}

/// What follows `create table` on a trimmed line.
pub open spec fn sql_rest(t: Seq<char>) -> Seq<char> {
    trim_start_by(t.skip(12), |c: char| is_ws(c))
}

/// Whether a line makes the table-name reader cut a character in two: a
/// `create table` line whose rest is at least 13 bytes long but has no
/// character boundary at byte 13 (the reader compares those 13 bytes to
/// `if not exists`).
pub open spec fn sql_line_panics(line: Seq<char>) -> bool {
    let t = sql_trimmed(line);
    let rest = sql_rest(t);
    &&& crate::text::has_prefix(crate::strs::to_lower(t), "create table"@)
    &&& byte_len(rest) >= 13
    &&& !exists|k: int| 0 <= k <= rest.len() && #[trigger] byte_len(rest.take(k)) == 13
}

/// Whether some line of `content` makes the table-name reader cut a character in two.
pub open spec fn sql_panics(content: Seq<char>) -> bool {
    exists|i: int| 0 <= i < lines(content).len() && #[trigger] sql_line_panics(lines(content)[i])
}

proof fn lemma_byte_len_mono(s: Seq<char>, a: int, b: int)
    requires
        0 <= a <= b <= s.len(),
    ensures
        byte_len(s.take(a)) + (b - a) <= byte_len(s.take(b)),
    decreases b - a,
{
    if a < b {
        lemma_byte_len_mono(s, a, b - 1);
        assert(s.take(b).drop_last() =~= s.take(b - 1));
    }
}

fn utf8_len_of(c: char) -> (r: usize)
    ensures
        r == utf8_len(c),
{
    let v = c as u32;
    if v < 0x80 {
        1
    } else if v < 0x800 {
        2
    } else if v < 0x10000 {
        3
    } else {
        4
    }
}

fn line_panics(line: &[char]) -> (r: bool)
    ensures
        r == sql_line_panics(line@),
{
    let a = trim_ws(line);
    let t = crate::strs::trim_end_str(a.as_slice(), ";");
    let lower = crate::strs::to_lower_chars(t.as_slice());
    if !crate::text::starts_with(lower.as_slice(), chars_of("create table").as_slice()) {
        return false;
    }
    proof {
        reveal_strlit("create table");
        assert(t@.len() >= 12);
    }
    let after = crate::graph::slice_from(t.as_slice(), 12);
    let rest = trim_start_ws(after.as_slice());
    let ghost r = rest@;
    let mut acc: usize = 0;
    let mut i: usize = 0;
    assert(r.take(0) =~= Seq::<char>::empty());
    while i < rest.len() && acc < 13
        invariant
            r == rest@,
            i <= r.len(),
            acc == byte_len(r.take(i as int)),
            acc <= 16,
            forall|k: int| 0 <= k < i ==> byte_len(r.take(k)) < 13,
        decreases rest.len() - i,
    {
        proof {
            assert(r.take(i + 1).drop_last() =~= r.take(i as int));
            assert forall|k: int| 0 <= k < i + 1 implies byte_len(r.take(k)) < 13 by {
                if k == i {
                    assert(acc < 13);
                }
            }
        }
        acc = acc + utf8_len_of(rest[i]);
        i += 1;
    }
    proof {
        if acc > 13 {
            assert forall|k: int| 0 <= k <= r.len() implies #[trigger] byte_len(r.take(k)) != 13 by {
                if k > i {
                    lemma_byte_len_mono(r, i as int, k);
                }
            }
            lemma_byte_len_mono(r, i as int, r.len() as int);
            assert(r.take(r.len() as int) =~= r);
        } else if acc == 13 {
            assert(byte_len(r.take(i as int)) == 13);
        } else {
            assert(i == r.len());
            assert(r.take(i as int) =~= r);
        }
    }
    acc > 13
}

/// Whether some line of `content` makes the table-name reader cut a character in two.
pub fn sql_would_panic(content: &str) -> (r: bool)
    ensures
        r == sql_panics(content@),
{
    let cv = chars_of(content);
    let ls = lines_of(cv.as_slice());
    let ghost lv = seqs_view(ls@);
    let mut i: usize = 0;
    while i < ls.len()
        invariant
            i <= ls@.len(),
            lv == seqs_view(ls@),
            lv == lines(content@),
            forall|j: int| 0 <= j < i ==> !#[trigger] sql_line_panics(lv[j]),
        decreases ls.len() - i,
    {
        assert(lv[i as int] == ls@[i as int]@);
        if line_panics(ls[i].as_slice()) {
            return true;
        }
        i += 1;
    }
    false
}

/// One SQL line: `create table [if not exists] name` starts a table; inside
/// a table, `references target` relates it to the target table; `)` ends it.
pub open spec fn sql_line(st: PyState, path: Seq<char>, line: Seq<char>) -> PyState {
    let t = sql_trimmed(line);
    let lower = crate::strs::to_lower(t);
    if crate::text::has_prefix(lower, "create table"@) {
        let rest = sql_rest(t);
        let rest2 = if rest.len() >= 13 && crate::strs::to_lower(rest.take(13)) == "if not exists"@ {
            trim_start_by(rest.skip(13), |c: char| is_ws(c))
        } else {
            rest
        };
        let w = words(rest2);
        let name = trim_by(if w.len() > 0 {
            w[0]
        } else {
            Seq::empty()
        }, in_set("\"`[]("@));
        if name.len() > 0 {
            let id = "type:"@ + name;
            PyState { ops: st.ops.push(OpView::Upsert(data_node(id, name, path))), current: Some(id) }
        } else {
            st
        }
    } else {
        match st.current {
            Some(src) => {
                let st1 = match find_str(lower, "references "@) {
                    Some(pos) => {
                        let target = trim_by(first_piece(t.skip(pos + 11), in_set(" ("@)), in_set("\"`[]"@));
                        if target.len() > 0 {
                            PyState { ops: st.ops.push(OpView::Link(src, "type:"@ + target, EdgeKind::RelatesTo)), ..st }
                        } else {
                            st
                        }
                    },
                    None => st,
                };
                if t == ")"@ {
                    PyState { current: None, ..st1 }
                } else {
                    st1
                }
            },
            None => st,
        }
    }
}

/// The SQL scan over lines.
pub open spec fn sql_scan(ls: Seq<Seq<char>>, path: Seq<char>) -> PyState
    decreases ls.len(),
{
    if ls.len() == 0 {
        PyState { ops: Seq::empty(), current: None }
    } else {
        sql_line(sql_scan(ls.drop_last(), path), path, ls.last())
    }
}


/// Parses a SQL file into the graph. No line may make the table-name reader
/// cut a character in two (`sql_would_panic` tells).
pub fn parse_sql(graph: &mut Graph, path: &str, content: &str)
    requires
        !sql_panics(content@),
    ensures
        graph_view(*final(graph)) == apply_all(graph_view(*old(graph)), sql_scan(lines(content@), path@).ops),
{
    let cv = chars_of(content);
    let mut ops: Vec<GraphOp> = Vec::new();
    let ls = lines_of(cv.as_slice());
    let ghost lv = seqs_view(ls@);
    let mut current: Option<Vec<char>> = None;
    let mut i: usize = 0;
    while i < ls.len()
        invariant
            i <= ls@.len(),
            lv == seqs_view(ls@),
            lv == lines(content@),
            !sql_panics(content@),
            op_views(ops@) == sql_scan(lv.take(i as int), path@).ops,
            match current {
                Some(c) => sql_scan(lv.take(i as int), path@).current == Some(c@),
                None => sql_scan(lv.take(i as int), path@).current is None,
            },
        decreases ls.len() - i,
    {
        let line = ls[i].as_slice();
        let ghost o0 = op_views(ops@);
        proof {
            let t = lv.take(i + 1);
            assert(t.drop_last() =~= lv.take(i as int));
            assert(t.last() == line@);
            assert(!sql_line_panics(lv[i as int]));
        }
        let a = trim_ws(line);
        let t = crate::strs::trim_end_str(a.as_slice(), ";");
        let lower = crate::strs::to_lower_chars(t.as_slice());
        if crate::text::starts_with(lower.as_slice(), chars_of("create table").as_slice()) {
            proof {
                reveal_strlit("create table");
            }
            let after = crate::graph::slice_from(t.as_slice(), 12);
            let rest = trim_start_ws(after.as_slice());
            let rest2 = if rest.len() >= 13 {
                let head = crate::strs::take_chars(rest.as_slice(), 13);
                let hl = crate::strs::to_lower_chars(head.as_slice());
                if eq_lit(hl.as_slice(), "if not exists") {
                    let tail = crate::graph::slice_from(rest.as_slice(), 13);
                    trim_start_ws(tail.as_slice())
                } else {
                    let r = crate::graph::slice_from(rest.as_slice(), 0);
                    assert(r@ =~= rest@);
                    r
                }
            } else {
                let r = crate::graph::slice_from(rest.as_slice(), 0);
                assert(r@ =~= rest@);
                r
            };
            let w = split_whitespace(rest2.as_slice());
            let first = if w.len() > 0 {
                assert(seqs_view(w@)[0] == w@[0]@);
                let r = crate::graph::slice_from(w[0].as_slice(), 0);
                assert(r@ =~= w@[0]@);
                r
            } else {
                Vec::new()
            };
            let name = trim_set(first.as_slice(), chars_of("\"`[](").as_slice());
            if name.len() > 0 {
                let id = type_id_of(name.as_slice());
                let node = data_node_of(id.as_slice(), name.as_slice(), path);
                let ghost nv = node@;
                ops.push(GraphOp::Upsert(node));
                assert(op_views(ops@) =~= o0.push(OpView::Upsert(nv)));
                current = Some(id);
            }
        } else {
            match &current {
                Some(src) => {
                    let key = chars_of("references ");
                    match find_chars(lower.as_slice(), key.as_slice()) {
                        Some(pos) => {
                            proof {
                                reveal_strlit("references ");
                                lemma_find_occurs(lower@, key@, 0);
                                assert(crate::strs::occurs_at(lower@, key@, pos as int));
                            }
                            let a1 = crate::graph::slice_from(t.as_slice(), pos);
                            let after = crate::graph::slice_from(a1.as_slice(), 11);
                            assert(after@ =~= t@.skip(pos + 11));
                            let p0 = first_piece_set(after.as_slice(), chars_of(" (").as_slice());
                            let target = trim_set(p0.as_slice(), chars_of("\"`[]").as_slice());
                            if target.len() > 0 {
                                let tid = type_id_of(target.as_slice());
                                ops.push(GraphOp::Link(string_of(src.as_slice()), string_of(tid.as_slice()), EdgeKind::RelatesTo));
                                assert(op_views(ops@) =~= o0.push(OpView::Link(src@, "type:"@ + target@, EdgeKind::RelatesTo)));
                            }
                        },
                        None => {},
                    }
                    if eq_lit(t.as_slice(), ")") {
                        current = None;
                    }
                },
                None => {},
            }
        }
        i += 1;
    }
    assert(lv.take(ls@.len() as int) =~= lv);
    graph.apply_ops(&ops);
}

/// The state of the Ruby scan.
pub struct RbState {
    pub ops: Seq<OpView>,
    pub current: Option<Seq<char>>,
    pub depth: nat,
    pub required: Seq<Seq<char>>,
}

/// Whether a Ruby line opens a nested block that a later `end` closes.
pub open spec fn opens_block(t: Seq<char>) -> bool {
    crate::text::has_prefix(t, "if "@) || crate::text::has_prefix(t, "unless "@) || crate::text::has_prefix(t, "do "@)
        || crate::text::has_prefix(t, "while "@) || crate::text::has_suffix(t, " do"@)
}

/// The class or module a Ruby line declares.
pub open spec fn rb_decl(t: Seq<char>) -> Option<Seq<char>> {
    match strip_prefix(t, "class "@) {
        Some(r) => Some(r),
        None => strip_prefix(t, "module "@),
    }
}

/// One Ruby line: `require` records the required constant; `class` and
/// `module` start a type (with its `<` parent); `def` inside a type records
/// a method; `end` closes a block; `if`, `unless`, `while` and `do` open one.
pub open spec fn rb_line(st: RbState, path: Seq<char>, line: Seq<char>) -> RbState {
    let t = trim(line);
    match strip_prefix(t, "require "@) {
        Some(rest) => {
            let name = crate::strs::last_piece(trim_by(trim(rest), in_set("\"' "@)), in_set("/"@));
            if name.len() > 0 {
                RbState { required: st.required.push(crate::recognize::camel_of(name)), ..st }
            } else {
                st
            }
        },
        None => match rb_decl(t) {
            Some(rest) => {
                let name = trim(first_piece(rest, in_set("< \t"@)));
                if name.len() == 0 {
                    st
                } else {
                    let id = declared_id(name);
                    let parent_ops = match second_piece(rest, in_set("<"@)) {
                        Some(p) => {
                            let w = words(p);
                            if w.len() > 0 {
                                seq![OpView::Link(id, "type:"@ + w[0], EdgeKind::Extends)]
                            } else {
                                Seq::empty()
                            }
                        },
                        None => Seq::empty(),
                    };
                    RbState {
                        ops: st.ops + type_node_ops(path, file_id_of(path), name, NodeKind::Type) + parent_ops,
                        current: Some(id),
                        depth: 1,
                        ..st
                    }
                }
            },
            None => {
                let st1 = match (strip_prefix(t, "def "@), st.current) {
                    (Some(d), Some(node)) => {
                        let n = trim(first_piece(d, in_set("( \n"@)));
                        if n.len() > 0 {
                            RbState {
                                ops: st.ops.push(OpView::AddMember(node, MemberView { name: n, kind: MemberKind::Method })),
                                ..st
                            }
                        } else {
                            st
                        }
                    },
                    _ => st,
                };
                let st2 = if t == "end"@ && st1.depth > 0 {
                    let d = (st1.depth - 1) as nat;
                    RbState { depth: d, current: if d == 0 {
                        None
                    } else {
                        st1.current
                    }, ..st1 }
                } else {
                    st1
                };
                if opens_block(t) && st2.current is Some && st2.depth > 0 {
                    RbState { depth: crate::spans::sat_add(st2.depth, 1), ..st2 }
                } else {
                    st2
                }
            },
        },
    }
}

/// The Ruby scan over lines.
pub open spec fn rb_scan(ls: Seq<Seq<char>>, path: Seq<char>) -> RbState
    decreases ls.len(),
{
    if ls.len() == 0 {
        RbState { ops: Seq::empty(), current: None, depth: 0, required: Seq::empty() }
    } else {
        rb_line(rb_scan(ls.drop_last(), path), path, ls.last())
    }
}

/// The updates of a Ruby file: its file node, its lines', then references
/// from the file to each required constant.
pub open spec fn ruby_ops(path: Seq<char>, content: Seq<char>) -> Seq<OpView> {
    let st = rb_scan(lines(content), path);
    seq![OpView::Upsert(file_node(path))] + st.ops + st.required.map_values(
        |r: Seq<char>| OpView::Reference(file_id_of(path), r, r, EdgeKind::Imports, None),
    )
}


fn is_block_opener(t: &[char]) -> (r: bool)
    ensures
        r == opens_block(t@),
{
    crate::text::starts_with(t, chars_of("if ").as_slice()) || crate::text::starts_with(t, chars_of("unless ").as_slice())
        || crate::text::starts_with(t, chars_of("do ").as_slice()) || crate::text::starts_with(t, chars_of("while ").as_slice())
        || crate::text::ends_with(t, chars_of(" do").as_slice())
}

/// Parses a Ruby file into the graph.
pub fn parse_ruby(graph: &mut Graph, path: &str, content: &str)
    ensures
        graph_view(*final(graph)) == apply_all(graph_view(*old(graph)), ruby_ops(path@, content@)),
{
    let cv = chars_of(content);
    let (file_op, file_id) = file_node_op(path);
    let mut ops: Vec<GraphOp> = Vec::new();
    ops.push(file_op);
    let ghost head = op_views(ops@);
    let ls = lines_of(cv.as_slice());
    let ghost lv = seqs_view(ls@);
    let mut current: Option<Vec<char>> = None;
    let mut depth: usize = 0;
    let mut required: Vec<Vec<char>> = Vec::new();
    let mut i: usize = 0;
    while i < ls.len()
        invariant
            i <= ls@.len(),
            lv == seqs_view(ls@),
            file_id@ == file_id_of(path@),
            head == seq![OpView::Upsert(file_node(path@))],
            op_views(ops@) == head + rb_scan(lv.take(i as int), path@).ops,
            depth == rb_scan(lv.take(i as int), path@).depth,
            seqs_view(required@) == rb_scan(lv.take(i as int), path@).required,
            match current {
                Some(c) => rb_scan(lv.take(i as int), path@).current == Some(c@),
                None => rb_scan(lv.take(i as int), path@).current is None,
            },
        decreases ls.len() - i,
    {
        let line = ls[i].as_slice();
        let ghost o0 = op_views(ops@);
        let ghost st0 = rb_scan(lv.take(i as int), path@);
        proof {
            let t = lv.take(i + 1);
            assert(t.drop_last() =~= lv.take(i as int));
            assert(t.last() == line@);
        }
        let t = trim_ws(line);
        match strip_prefix_str(t.as_slice(), "require ") {
            Some(rest) => {
                let a = trim_ws(rest.as_slice());
                let b = trim_set(a.as_slice(), chars_of("\"' ").as_slice());
                let name = crate::strs::last_piece_set(b.as_slice(), chars_of("/").as_slice());
                if name.len() > 0 {
                    let camel = crate::recognize::snake_to_camel(name.as_slice());
                    let ghost r0 = seqs_view(required@);
                    let ghost cvw = camel@;
                    required.push(camel);
                    assert(seqs_view(required@) =~= r0.push(cvw));
                }
            },
            None => {
                let decl = match strip_prefix_str(t.as_slice(), "class ") {
                    Some(r) => Some(r),
                    None => strip_prefix_str(t.as_slice(), "module "),
                };
                match decl {
                    Some(rest) => {
                        let p0 = first_piece_set(rest.as_slice(), chars_of("< \t").as_slice());
                        let name = trim_ws(p0.as_slice());
                        if name.len() > 0 {
                            let (mut tops, id) = type_node_op_list(path, &file_id, name.as_slice(), NodeKind::Type);
                            let ghost tv = op_views(tops@);
                            ops.append(&mut tops);
                            assert(op_views(ops@) =~= o0 + tv);
                            match second_piece_set(rest.as_slice(), chars_of("<").as_slice()) {
                                Some(p) => {
                                    let w = split_whitespace(p.as_slice());
                                    if w.len() > 0 {
                                        assert(seqs_view(w@)[0] == w@[0]@);
                                        let target = type_id_of(w[0].as_slice());
                                        ops.push(GraphOp::Link(string_of(id.as_slice()), string_of(target.as_slice()), EdgeKind::Extends));
                                        assert(op_views(ops@) =~= o0 + tv + seq![OpView::Link(id@, "type:"@ + w@[0]@, EdgeKind::Extends)]);
                                    } else {
                                        assert(op_views(ops@) =~= o0 + tv + Seq::<OpView>::empty());
                                    }
                                },
                                None => {
                                    assert(op_views(ops@) =~= o0 + tv + Seq::<OpView>::empty());
                                },
                            }
                            current = Some(id);
                            depth = 1;
                        }
                    },
                    None => {
                        match (strip_prefix_str(t.as_slice(), "def "), &current) {
                            (Some(d), Some(node)) => {
                                let p0 = first_piece_set(d.as_slice(), chars_of("( \n").as_slice());
                                let n = trim_ws(p0.as_slice());
                                if n.len() > 0 {
                                    let m = Member { name: string_of(n.as_slice()), kind: MemberKind::Method };
                                    ops.push(GraphOp::AddMember(string_of(node.as_slice()), m));
                                    assert(op_views(ops@) =~= o0.push(OpView::AddMember(node@, MemberView { name: n@, kind: MemberKind::Method })));
                                }
                            },
                            _ => {},
                        }
                        if eq_lit(t.as_slice(), "end") && depth > 0 {
                            depth = depth - 1;
                            if depth == 0 {
                                current = None;
                            }
                        }
                        if is_block_opener(t.as_slice()) && current.is_some() && depth > 0 {
                            depth = depth.saturating_add(1);
                        }
                    },
                }
            },
        }
        i += 1;
    }
    assert(lv.take(ls@.len() as int) =~= lv);
    let ghost rv = seqs_view(required@);
    let ghost body = op_views(ops@);
    let mut k: usize = 0;
    while k < required.len()
        invariant
            k <= required@.len(),
            rv == seqs_view(required@),
            file_id@ == file_id_of(path@),
            op_views(ops@) == body + rv.take(k as int).map_values(
                |r: Seq<char>| OpView::Reference(file_id_of(path@), r, r, EdgeKind::Imports, None),
            ),
        decreases required.len() - k,
    {
        let ghost o1 = op_views(ops@);
        let target = string_of(required[k].as_slice());
        ops.push(GraphOp::Reference(file_id.clone(), string_of(required[k].as_slice()), target, EdgeKind::Imports, None));
        assert(rv[k as int] == required@[k as int]@);
        assert(op_views(ops@) =~= o1.push(OpView::Reference(file_id@, rv[k as int], rv[k as int], EdgeKind::Imports, None)));
        assert(rv.take(k + 1).map_values(|r: Seq<char>| OpView::Reference(file_id_of(path@), r, r, EdgeKind::Imports, None))
            =~= rv.take(k as int).map_values(|r: Seq<char>| OpView::Reference(file_id_of(path@), r, r, EdgeKind::Imports, None)).push(
            OpView::Reference(file_id@, rv[k as int], rv[k as int], EdgeKind::Imports, None),
        ));
        k += 1;
    }
    assert(rv.take(required@.len() as int) =~= rv);
    assert(op_views(ops@) =~= ruby_ops(path@, content@));
    graph.apply_ops(&ops);
}

} // verus!
