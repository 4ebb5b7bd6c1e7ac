//! Manifest files: the manifest node and, for `package.json` and
//! `Cargo.toml`, a node and an import edge per declared dependency.
use crate::graph::Graph;
use crate::keymap::{insert_entry, key_view, lemma_key_view_index, KeyMap, KeySet};
use crate::line_parsers::after_first_str;
use crate::model::{EdgeKind, Node, NodeKind, NodeView};
use crate::ops::{apply_all, graph_view, op_views, GraphOp, OpView};
use crate::strs::{
    contains_lit, contains_str, find_chars, find_set, find_str, first_index, in_set, last_piece, last_piece_set, lines,
    lines_of, seqs_view, strip_prefix, strip_prefix_str, trim, trim_ws,
};
use crate::text::{chars_of, eq_lit, has_prefix, has_suffix, push_all, push_str, starts_with, ends_with, string_of};
use vstd::prelude::*;

verus! {

broadcast use vstd::string::group_string_axioms;

/// The table made by storing each name in turn: the names, sorted, each once.
pub open spec fn name_table(names: Seq<Seq<char>>) -> Seq<(Seq<char>, ())>
    decreases names.len(),
{
    if names.len() == 0 {
        Seq::empty()
    } else {
        insert_entry(name_table(names.drop_last()), names.last(), ())
    }
}

/// The names sorted and without repeats.
pub open spec fn sorted_names(names: Seq<Seq<char>>) -> Seq<Seq<char>> {
    name_table(names).map_values(|e: (Seq<char>, ())| e.0)
}

fn sort_dedup(names: &Vec<Vec<char>>) -> (r: Vec<String>)
    ensures
        crate::text::strs_view(r@) == sorted_names(seqs_view(names@)),
{
    let ghost nv = seqs_view(names@);
    let mut table: KeySet = KeyMap::new();
    let mut i: usize = 0;
    while i < names.len()
        invariant
            i <= names@.len(),
            nv == seqs_view(names@),
            table@ == name_table(nv.take(i as int)),
            crate::keymap::sorted_keys(table@),
        decreases names.len() - i,
    {
        proof {
            let t = nv.take(i + 1);
            assert(t.drop_last() =~= nv.take(i as int));
            assert(t.last() == names@[i as int]@);
        }
        table.insert(string_of(names[i].as_slice()), ());
        i += 1;
    }
    assert(nv.take(names@.len() as int) =~= nv);
    let es = table.entries();
    let mut out: Vec<String> = Vec::new();
    let mut k: usize = 0;
    while k < es.len()
        invariant
            k <= es@.len(),
            key_view(es@) == table@,
            crate::text::strs_view(out@) == table@.take(k as int).map_values(|e: (Seq<char>, ())| e.0),
        decreases es.len() - k,
    {
        proof {
            lemma_key_view_index(es@, k as int);
        }
        let ghost o0 = crate::text::strs_view(out@);
        out.push(es[k].0.clone());
        assert(crate::text::strs_view(out@) =~= o0.push(table@[k as int].0));
        assert(table@.take(k + 1).map_values(|e: (Seq<char>, ())| e.0) =~= table@.take(k as int).map_values(
            |e: (Seq<char>, ())| e.0,
        ).push(table@[k as int].0));
        k += 1;
    }
    assert(table@.take(es@.len() as int) =~= table@);
    out
}

/// The name a `"name": ...` line of a dependency block declares, if any.
pub open spec fn quoted_name(line: Seq<char>) -> Option<Seq<char>> {
    match strip_prefix(trim(line), "\""@) {
        Some(name) => {
            let end = first_index(name, in_set("\""@));
            if end < name.len() && end > 0 {
                Some(name.take(end))
            } else {
                None
            }
        },
        None => None,
    }
}

/// The names declared by the lines of a block.
pub open spec fn block_names(ls: Seq<Seq<char>>) -> Seq<Seq<char>>
    decreases ls.len(),
{
    if ls.len() == 0 {
        Seq::empty()
    } else {
        let rest = block_names(ls.drop_last());
        match quoted_name(ls.last()) {
            Some(n) => rest.push(n),
            None => rest,
        }
    }
}

/// The names declared in the `{ ... }` block after the first `section` key.
pub open spec fn section_names(content: Seq<char>, section: Seq<char>) -> Seq<Seq<char>> {
    match find_str(content, section) {
        Some(start) => {
            let open_rel = first_index(content.skip(start), in_set("{"@));
            if open_rel < content.len() - start {
                let abs_open = start + open_rel;
                let close = first_index(content.skip(abs_open), in_set("}"@));
                if close < content.len() - abs_open {
                    block_names(lines(content.subrange(abs_open + 1, abs_open + close)))
                } else {
                    Seq::empty()
                }
            } else {
                Seq::empty()
            }
        },
        None => Seq::empty(),
    }
}

/// The dependencies a `package.json` declares, sorted, each once.
pub open spec fn npm_deps(content: Seq<char>) -> Seq<Seq<char>> {
    sorted_names(
        section_names(content, "\"dependencies\""@) + section_names(content, "\"devDependencies\""@) + section_names(
            content,
            "\"peerDependencies\""@,
        ),
    )
}

fn block_names_of(block: &[char]) -> (r: Vec<Vec<char>>)
    ensures
        seqs_view(r@) == block_names(lines(block@)),
{
    let ls = lines_of(block);
    let ghost lv = seqs_view(ls@);
    let mut out: Vec<Vec<char>> = Vec::new();
    let mut i: usize = 0;
    while i < ls.len()
        invariant
            i <= ls@.len(),
            lv == seqs_view(ls@),
            seqs_view(out@) == block_names(lv.take(i as int)),
        decreases ls.len() - i,
    {
        proof {
            let t = lv.take(i + 1);
            assert(t.drop_last() =~= lv.take(i as int));
            assert(t.last() == ls@[i as int]@);
        }
        let t = trim_ws(ls[i].as_slice());
        match strip_prefix_str(t.as_slice(), "\"") {
            Some(name) => {
                let end = find_set(name.as_slice(), chars_of("\"").as_slice());
                if end < name.len() && end > 0 {
                    let n = crate::strs::take_chars(name.as_slice(), end);
                    let ghost o0 = seqs_view(out@);
                    let ghost v = n@;
                    out.push(n);
                    assert(seqs_view(out@) =~= o0.push(v));
                }
            },
            None => {},
        }
        i += 1;
    }
    assert(lv.take(ls@.len() as int) =~= lv);
    out
}

fn section_names_of(content: &[char], section: &str) -> (r: Vec<Vec<char>>)
    ensures
        seqs_view(r@) == section_names(content@, section@),
{
    let sv = chars_of(section);
    match find_chars(content, sv.as_slice()) {
        Some(start) => {
            proof {
                crate::imports::lemma_find_occurs(content@, sv@, 0);
            }
            let rest = crate::graph::slice_from(content, start);
            let open_rel = find_set(rest.as_slice(), chars_of("{").as_slice());
            if open_rel < rest.len() {
                let abs_open = content.len() - (rest.len() - open_rel);
                let after = crate::graph::slice_from(content, abs_open);
                let close = find_set(after.as_slice(), chars_of("}").as_slice());
                if close < after.len() {
                    proof {
                        reveal_strlit("{");
                        reveal_strlit("}");
                        crate::strs::lemma_first_index_hit(rest@, in_set("{"@));
                        crate::strs::lemma_first_index_hit(after@, in_set("}"@));
                        assert(after@[0] == content@[abs_open as int]);
                        assert(rest@[open_rel as int] == content@[abs_open as int]);
                        assert("{"@.contains(rest@[open_rel as int]));
                        assert(rest@[open_rel as int] == '{');
                        assert(!"}"@.contains(after@[0]));
                        assert(close > 0);
                    }
                    let a = crate::graph::slice_from(content, abs_open + 1);
                    let block = crate::strs::take_chars(a.as_slice(), close - 1);
                    assert(block@ =~= content@.subrange(abs_open + 1, abs_open + close));
                    block_names_of(block.as_slice())
                } else {
                    let r: Vec<Vec<char>> = Vec::new();
                    assert(seqs_view(r@) =~= Seq::<Seq<char>>::empty());
                    r
                }
            } else {
                let r: Vec<Vec<char>> = Vec::new();
                assert(seqs_view(r@) =~= Seq::<Seq<char>>::empty());
                r
            }
        },
        None => {
            let r: Vec<Vec<char>> = Vec::new();
            assert(seqs_view(r@) =~= Seq::<Seq<char>>::empty());
            r
        },
    }
}

/// The dependencies declared in the `dependencies`, `devDependencies` and
/// `peerDependencies` blocks of a `package.json`, sorted, each once.
pub fn extract_package_json_deps(content: &[char]) -> (r: Vec<String>)
    ensures
        crate::text::strs_view(r@) == npm_deps(content@),
{
    let mut all = section_names_of(content, "\"dependencies\"");
    let mut dev = section_names_of(content, "\"devDependencies\"");
    let mut peer = section_names_of(content, "\"peerDependencies\"");
    let ghost a = seqs_view(all@);
    let ghost b = seqs_view(dev@);
    let ghost c = seqs_view(peer@);
    all.append(&mut dev);
    all.append(&mut peer);
    assert(seqs_view(all@) =~= a + b + c);
    sort_dedup(&all)
}


/// Whether a bracketed TOML header opens a dependency table.
pub open spec fn is_dep_table(t: Seq<char>) -> bool {
    t == "[dependencies]"@ || t == "[dev-dependencies]"@ || t == "[build-dependencies]"@
}

/// The scan of a `Cargo.toml`: the names declared so far and whether the
/// current table is a dependency table.
pub open spec fn cargo_scan(ls: Seq<Seq<char>>) -> (Seq<Seq<char>>, bool)
    decreases ls.len(),
{
    if ls.len() == 0 {
        (Seq::empty(), false)
    } else {
        let (names, in_deps) = cargo_scan(ls.drop_last());
        let t = trim(ls.last());
        if has_prefix(t, "["@) && has_suffix(t, "]"@) {
            (names, is_dep_table(t))
        } else if !in_deps || t.len() == 0 || has_prefix(t, "#"@) {
            (names, in_deps)
        } else {
            let eq = first_index(t, in_set("="@));
            if eq < t.len() && trim(t.take(eq)).len() > 0 {
                (names.push(trim(t.take(eq))), in_deps)
            } else {
                (names, in_deps)
            }
        }
    }
}

/// The dependencies a `Cargo.toml` declares, sorted, each once.
pub open spec fn cargo_deps(content: Seq<char>) -> Seq<Seq<char>> {
    sorted_names(cargo_scan(lines(content)).0)
}

/// The dependencies declared in a `Cargo.toml`'s dependency tables, sorted, each once.
pub fn extract_cargo_deps(content: &[char]) -> (r: Vec<String>)
    ensures
        crate::text::strs_view(r@) == cargo_deps(content@),
{
    let ls = lines_of(content);
    let ghost lv = seqs_view(ls@);
    let mut names: Vec<Vec<char>> = Vec::new();
    let mut in_deps = false;
    let mut i: usize = 0;
    while i < ls.len()
        invariant
            i <= ls@.len(),
            lv == seqs_view(ls@),
            seqs_view(names@) == cargo_scan(lv.take(i as int)).0,
            in_deps == cargo_scan(lv.take(i as int)).1,
        decreases ls.len() - i,
    {
        proof {
            let t = lv.take(i + 1);
            assert(t.drop_last() =~= lv.take(i as int));
            assert(t.last() == ls@[i as int]@);
        }
        let t = trim_ws(ls[i].as_slice());
        if starts_with(t.as_slice(), chars_of("[").as_slice()) && ends_with(t.as_slice(), chars_of("]").as_slice()) {
            in_deps = eq_lit(t.as_slice(), "[dependencies]") || eq_lit(t.as_slice(), "[dev-dependencies]") || eq_lit(
                t.as_slice(),
                "[build-dependencies]",
            );
        } else if !in_deps || t.len() == 0 || starts_with(t.as_slice(), chars_of("#").as_slice()) {
        } else {
            let eq = find_set(t.as_slice(), chars_of("=").as_slice());
            if eq < t.len() {
                let head = crate::strs::take_chars(t.as_slice(), eq);
                let name = trim_ws(head.as_slice());
                if name.len() > 0 {
                    let ghost o0 = seqs_view(names@);
                    let ghost v = name@;
                    names.push(name);
                    assert(seqs_view(names@) =~= o0.push(v));
                }
            }
        }
        i += 1;
    }
    assert(lv.take(ls@.len() as int) =~= lv);
    sort_dedup(&names)
}

/// The manifest file names always recognised.
pub open spec fn is_manifest_name(n: Seq<char>) -> bool {
    n == "package.json"@ || n == "Cargo.toml"@ || n == "go.mod"@ || n == "pom.xml"@ || n == "build.gradle"@ || n
        == "apex.rules.yaml"@ || n == "apex.workspace.yaml"@ || n == "pyproject.toml"@ || n == "Gemfile"@ || n
        == "composer.json"@
}

/// A dependency's node and the manifest's edge to it, for each dependency.
pub open spec fn dep_ops(manifest_id: Seq<char>, deps: Seq<Seq<char>>, tag: Seq<char>) -> Seq<OpView>
    decreases deps.len(),
{
    if deps.len() == 0 {
        Seq::empty()
    } else {
        let d = deps.last();
        let id = "type:pkg:"@ + d;
        dep_ops(manifest_id, deps.drop_last(), tag) + seq![
            OpView::Upsert(NodeView { id, name: d, kind: NodeKind::File, path: tag + d, layer: Some("dependency"@) }),
            OpView::Link(manifest_id, id, EdgeKind::Imports),
        ]
    }
}

/// The updates of a manifest: none unless its name is a known manifest or
/// it declares dependencies; then its node and, for `package.json` and
/// `Cargo.toml`, its dependencies.
pub open spec fn manifest_ops(path: Seq<char>, content: Seq<char>) -> Seq<OpView> {
    let fname = last_piece(path, in_set("/"@));
    if !(is_manifest_name(fname) || contains_str(content, "\"dependencies\""@) || contains_str(content, "[dependencies]"@)) {
        Seq::empty()
    } else {
        let mid = "type:manifest:"@ + fname;
        seq![OpView::Upsert(NodeView { id: mid, name: fname, kind: NodeKind::File, path, layer: Some("config"@) })]
            + if fname == "package.json"@ {
            dep_ops(mid, npm_deps(content), "(npm) "@)
        } else if fname == "Cargo.toml"@ {
            dep_ops(mid, cargo_deps(content), "(cargo) "@)
        } else {
            Seq::empty()
        }
    }
}

fn prefixed(prefix: &str, s: &[char]) -> (r: String)
    ensures
        r@ == prefix@ + s@,
{
    let mut v: Vec<char> = Vec::new();
    push_str(&mut v, prefix);
    push_all(&mut v, s);
    string_of(v.as_slice())
}

fn push_dep_ops(ops: &mut Vec<GraphOp>, manifest_id: &String, deps: &Vec<String>, tag: &str)
    ensures
        op_views(final(ops)@) == op_views(old(ops)@) + dep_ops(manifest_id@, crate::text::strs_view(deps@), tag@),
{
    let ghost start = op_views(ops@);
    let ghost dv = crate::text::strs_view(deps@);
    let mut i: usize = 0;
    while i < deps.len()
        invariant
            i <= deps@.len(),
            dv == crate::text::strs_view(deps@),
            op_views(ops@) == start + dep_ops(manifest_id@, dv.take(i as int), tag@),
        decreases deps.len() - i,
    {
        let d = chars_of(deps[i].as_str());
        let ghost o0 = op_views(ops@);
        let node = Node {
            id: prefixed("type:pkg:", d.as_slice()),
            name: deps[i].clone(),
            kind: NodeKind::File,
            path: prefixed(tag, d.as_slice()),
            layer: Some(crate::text::owned("dependency")),
        };
        let ghost nv = node@;
        ops.push(GraphOp::Upsert(node));
        ops.push(GraphOp::Link(manifest_id.clone(), prefixed("type:pkg:", d.as_slice()), EdgeKind::Imports));
        proof {
            let t = dv.take(i + 1);
            assert(t.drop_last() =~= dv.take(i as int));
            assert(t.last() == deps@[i as int]@);
            assert(op_views(ops@) =~= o0 + seq![OpView::Upsert(nv), OpView::Link(manifest_id@, "type:pkg:"@ + d@, EdgeKind::Imports)]);
        }
        i += 1;
    }
    assert(dv.take(deps@.len() as int) =~= dv);
}


fn is_manifest_file(n: &[char]) -> (r: bool)
    ensures
        r == is_manifest_name(n@),
{
    eq_lit(n, "package.json") || eq_lit(n, "Cargo.toml") || eq_lit(n, "go.mod") || eq_lit(n, "pom.xml") || eq_lit(
        n,
        "build.gradle",
    ) || eq_lit(n, "apex.rules.yaml") || eq_lit(n, "apex.workspace.yaml") || eq_lit(n, "pyproject.toml") || eq_lit(
        n,
        "Gemfile",
    ) || eq_lit(n, "composer.json")
}

/// Parses a manifest file into the graph.
pub fn parse_manifest(graph: &mut Graph, path: &str, content: &str)
    ensures
        graph_view(*final(graph)) == apply_all(graph_view(*old(graph)), manifest_ops(path@, content@)),
{
    let pv = chars_of(path);
    let cv = chars_of(content);
    let fname = last_piece_set(pv.as_slice(), chars_of("/").as_slice());
    let interesting = is_manifest_file(fname.as_slice()) || contains_lit(cv.as_slice(), "\"dependencies\"") || contains_lit(
        cv.as_slice(),
        "[dependencies]",
    );
    let mut ops: Vec<GraphOp> = Vec::new();
    if !interesting {
        assert(op_views(ops@) =~= manifest_ops(path@, content@));
        graph.apply_ops(&ops);
        return;
    }
    let mid = prefixed("type:manifest:", fname.as_slice());
    let node = Node {
        id: mid.clone(),
        name: string_of(fname.as_slice()),
        kind: NodeKind::File,
        path: crate::text::owned(path),
        layer: Some(crate::text::owned("config")),
    };
    ops.push(GraphOp::Upsert(node));
    let ghost o1 = op_views(ops@);
    if eq_lit(fname.as_slice(), "package.json") {
        let deps = extract_package_json_deps(cv.as_slice());
        push_dep_ops(&mut ops, &mid, &deps, "(npm) ");
    } else if eq_lit(fname.as_slice(), "Cargo.toml") {
        let deps = extract_cargo_deps(cv.as_slice());
        push_dep_ops(&mut ops, &mid, &deps, "(cargo) ");
    }
    assert(op_views(ops@) =~= manifest_ops(path@, content@));
    graph.apply_ops(&ops);
}

} // verus!
