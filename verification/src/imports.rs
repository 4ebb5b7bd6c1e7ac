//! The names each language's import lines bring into a file, with the layer
//! the import line suggests.
use crate::graph::{key_set, Graph};
use crate::keymap::{has_key, lemma_insert_entry, sorted_keys, KeyMap, KeySet};
use crate::model::opt_view;
use crate::recognize::{imported_names, imported_symbols, keyword_name, after_keyword, layer_for_import, layer_of_import};
use crate::strs::{
    contains_lit, contains_str, find_chars, first_piece, first_piece_set, in_set, last_piece, last_piece_set, lines,
    lines_of, rfind_chars, rfind_str, find_str, seqs_view, split_on, split_whitespace, strip_prefix, strip_prefix_str, trim,
    trim_by, trim_end_lit, trim_end_str, trim_set, trim_start_by, trim_start_lit, trim_start_str, trim_start_ws, trim_ws,
    words,
};
use crate::text::{chars_equal, chars_of, eq_lit, has_prefix, starts_with, string_of};
use vstd::prelude::*;

verus! {

broadcast use vstd::string::group_string_axioms;

/// An imported name and the layer its import line suggests.
pub type ImportRef = (String, Option<String>);

/// The plain-value views of imported names.
pub open spec fn import_views(v: Seq<ImportRef>) -> Seq<(Seq<char>, Option<Seq<char>>)> {
    v.map_values(|p: ImportRef| (p.0@, opt_view(p.1)))
}

/// The text after the last occurrence of `t` (`rsplit(t).next()`).
pub open spec fn after_last_str(s: Seq<char>, t: Seq<char>) -> Seq<char> {
    match rfind_str(s, t) {
        Some(i) => s.skip(i + t.len()),
        None => s,
    }
}

/// The text before the first occurrence of `t` (`split(t).next()`).
pub open spec fn before_first_str(s: Seq<char>, t: Seq<char>) -> Seq<char> {
    match find_str(s, t) {
        Some(i) => s.take(i),
        None => s,
    }
}

fn after_last_lit(s: &[char], t: &str) -> (r: Vec<char>)
    ensures
        r@ == after_last_str(s@, t@),
{
    let tv = chars_of(t);
    match rfind_chars(s, tv.as_slice()) {
        Some(i) => {
            proof {
                let j = rfind_str(s@, tv@);
                lemma_rfind_occurs(s@, tv@, s@.len() - tv@.len());
                assert(j == Some(i as int));
                assert(crate::strs::occurs_at(s@, tv@, i as int));
            }
            let rest = crate::graph::slice_from(s, i);
            let r = crate::graph::slice_from(rest.as_slice(), tv.len());
            assert(r@ =~= s@.skip(i + tv@.len()));
            r
        },
        None => {
            let r = crate::graph::slice_from(s, 0);
            assert(s@.skip(0) =~= s@);
            r
        },
    }
}

proof fn lemma_rfind_occurs(s: Seq<char>, t: Seq<char>, i: int)
    ensures
        match crate::strs::rfind_to(s, t, i) {
            Some(j) => crate::strs::occurs_at(s, t, j),
            None => true,
        },
    decreases i + 1,
{
    if i >= 0 && !crate::strs::occurs_at(s, t, i) {
        lemma_rfind_occurs(s, t, i - 1);
    }
}

/// A position the search from `i` reports is an occurrence, at or after `i`.
pub proof fn lemma_find_occurs(s: Seq<char>, t: Seq<char>, i: int)
    ensures
        match crate::strs::find_from(s, t, i) {
            Some(j) => crate::strs::occurs_at(s, t, j) && j >= i,
            None => true,
        },
    decreases s.len() + 1 - i,
{
    if !(i < 0 || i + t.len() > s.len()) && !crate::strs::occurs_at(s, t, i) {
        lemma_find_occurs(s, t, i + 1);
    }
}

fn before_first_lit(s: &[char], t: &str) -> (r: Vec<char>)
    ensures
        r@ == before_first_str(s@, t@),
{
    let tv = chars_of(t);
    match find_chars(s, tv.as_slice()) {
        Some(i) => {
            proof {
                lemma_find_occurs(s@, tv@, 0);
            }
            crate::strs::take_chars(s, i)
        },
        None => {
            let r = crate::graph::slice_from(s, 0);
            assert(s@.skip(0) =~= s@);
            r
        },
    }
}

/// TypeScript imports: the symbols of each line starting (after indentation) with `import `.
pub open spec fn ts_import_refs(ls: Seq<Seq<char>>) -> Seq<(Seq<char>, Option<Seq<char>>)>
    decreases ls.len(),
{
    if ls.len() == 0 {
        Seq::empty()
    } else {
        let rest = ts_import_refs(ls.drop_last());
        let line = ls.last();
        if has_prefix(trim_start_by(line, |c: char| crate::strs::is_ws(c)), "import "@) {
            rest + imported_names(line).map_values(|n: Seq<char>| (n, layer_of_import(line)))
        } else {
            rest
        }
    }
}

/// Collects the symbols imported by TypeScript `import` lines.
pub fn collect_ts_imports(content: &[char]) -> (r: Vec<ImportRef>)
    ensures
        import_views(r@) == ts_import_refs(lines(content@)),
{
    let ls = lines_of(content);
    let ghost lv = seqs_view(ls@);
    let mut out: Vec<ImportRef> = Vec::new();
    let mut i: usize = 0;
    while i < ls.len()
        invariant
            i <= ls@.len(),
            lv == seqs_view(ls@),
            import_views(out@) == ts_import_refs(lv.take(i as int)),
        decreases ls.len() - i,
    {
        let line = ls[i].as_slice();
        proof {
            let t = lv.take(i + 1);
            assert(t.drop_last() =~= lv.take(i as int));
            assert(t.last() == line@);
        }
        let head = trim_start_ws(line);
        if starts_with(head.as_slice(), chars_of("import ").as_slice()) {
            let names = imported_symbols(line);
            let ghost nv = seqs_view(names@);
            let ghost base = import_views(out@);
            let mut k: usize = 0;
            while k < names.len()
                invariant
                    k <= names@.len(),
                    nv == seqs_view(names@),
                    import_views(out@) == base + nv.take(k as int).map_values(|n: Seq<char>| (n, layer_of_import(line@))),
                decreases names.len() - k,
            {
                let layer = layer_for_import(line);
                let ghost o0 = import_views(out@);
                out.push((string_of(names[k].as_slice()), layer));
                assert(nv[k as int] == names@[k as int]@);
                assert(import_views(out@) =~= o0.push((nv[k as int], layer_of_import(line@))));
                assert(nv.take(k + 1).map_values(|n: Seq<char>| (n, layer_of_import(line@))) =~= nv.take(k as int).map_values(
                    |n: Seq<char>| (n, layer_of_import(line@)),
                ).push((nv[k as int], layer_of_import(line@))));
                k += 1;
            }
            assert(nv.take(names@.len() as int) =~= nv);
        }
        i += 1;
    }
    assert(lv.take(ls@.len() as int) =~= lv);
    out
}

/// The name a Java-style import line (`prefix a.b.C;`) brings in, if any.
pub open spec fn dotted_import(line: Seq<char>, prefix: Seq<char>) -> Option<Seq<char>> {
    let t = trim(line);
    if !has_prefix(t, prefix) {
        None
    } else {
        let n = last_piece(trim_end_lit(trim_start_lit(t, prefix), ";"@), in_set("."@));
        if n.len() > 0 && n != "*"@ {
            Some(n)
        } else {
            None
        }
    }
}

/// Java, Kotlin and C# imports.
pub open spec fn dotted_import_refs(ls: Seq<Seq<char>>, prefix: Seq<char>) -> Seq<(Seq<char>, Option<Seq<char>>)>
    decreases ls.len(),
{
    if ls.len() == 0 {
        Seq::empty()
    } else {
        let rest = dotted_import_refs(ls.drop_last(), prefix);
        match dotted_import(ls.last(), prefix) {
            Some(n) => rest.push((n, layer_of_import(ls.last()))),
            None => rest,
        }
    }
}

/// Collects the names brought in by `prefix a.b.C;` import lines.
pub fn collect_java_style_imports(content: &[char], prefix: &str) -> (r: Vec<ImportRef>)
    ensures
        import_views(r@) == dotted_import_refs(lines(content@), prefix@),
{
    let ls = lines_of(content);
    let ghost lv = seqs_view(ls@);
    let pv = chars_of(prefix);
    let dot = chars_of(".");
    let mut out: Vec<ImportRef> = Vec::new();
    let mut i: usize = 0;
    while i < ls.len()
        invariant
            i <= ls@.len(),
            lv == seqs_view(ls@),
            pv@ == prefix@,
            dot@ == "."@,
            import_views(out@) == dotted_import_refs(lv.take(i as int), prefix@),
        decreases ls.len() - i,
    {
        let line = ls[i].as_slice();
        proof {
            let t = lv.take(i + 1);
            assert(t.drop_last() =~= lv.take(i as int));
            assert(t.last() == line@);
        }
        let t = trim_ws(line);
        if starts_with(t.as_slice(), pv.as_slice()) {
            let a = trim_start_str(t.as_slice(), prefix);
            let b = trim_end_str(a.as_slice(), ";");
            let n = last_piece_set(b.as_slice(), dot.as_slice());
            if n.len() > 0 && !eq_lit(n.as_slice(), "*") {
                let ghost o0 = import_views(out@);
                let layer = layer_for_import(line);
                out.push((string_of(n.as_slice()), layer));
                assert(import_views(out@) =~= o0.push((n@, layer_of_import(line@))));
            }
        }
        i += 1;
    }
    assert(lv.take(ls@.len() as int) =~= lv);
    out
}


/// Whether an imported Rust name is kept from a `use` group.
pub open spec fn rust_group_name(piece: Seq<char>) -> Seq<char> {
    let w = words(trim(piece));
    let n0 = if w.len() > 0 {
        w[0]
    } else {
        Seq::empty()
    };
    let n1 = after_last_str(n0, "::"@);
    let w2 = words(n1);
    if w2.len() > 0 {
        w2[0]
    } else {
        n1
    }
}

/// The names of a Rust `use` group's pieces that are neither `self` nor `*`.
pub open spec fn rust_group_names(pieces: Seq<Seq<char>>) -> Seq<(Seq<char>, Option<Seq<char>>)>
    decreases pieces.len(),
{
    if pieces.len() == 0 {
        Seq::empty()
    } else {
        let rest = rust_group_names(pieces.drop_last());
        let n = rust_group_name(pieces.last());
        if n.len() > 0 && n != "self"@ && n != "*"@ {
            rest.push((n, None))
        } else {
            rest
        }
    }
}

/// The names a Rust `use` line brings in.
pub open spec fn rust_line_refs(line: Seq<char>) -> Seq<(Seq<char>, Option<Seq<char>>)> {
    let t = trim(line);
    if !has_prefix(t, "use "@) {
        Seq::empty()
    } else {
        let body = trim_end_lit(trim_start_lit(t, "use "@), ";"@);
        let open = crate::strs::first_index(body, in_set("{"@));
        if open < body.len() {
            rust_group_names(split_on(trim_end_lit(body.skip(open + 1), "}"@), ','))
        } else {
            let n = after_last_str(body, "::"@);
            if n.len() > 0 && n != "crate"@ && n != "self"@ && n != "super"@ && n != "*"@ {
                seq![(n, None)]
            } else {
                Seq::empty()
            }
        }
    }
}

/// The headers a C or C++ line includes and the names it brings in with `using`.
pub open spec fn cpp_line_refs(line: Seq<char>) -> Seq<(Seq<char>, Option<Seq<char>>)> {
    let t = trim(line);
    let inc = match strip_prefix(t, "#include"@) {
        Some(rest) => {
            let r = crate::strs::trim_end_by(trim_start_by(trim(rest), in_set("<\""@)), in_set(">\""@));
            let stem = trim_end_lit(trim_end_lit(last_piece(r, in_set("/"@)), ".h"@), ".hpp"@);
            if stem.len() > 0 {
                seq![(stem, None)]
            } else {
                Seq::empty()
            }
        },
        None => Seq::empty(),
    };
    let using = match strip_prefix(t, "using "@) {
        Some(rest) => {
            let n = after_last_str(trim_end_lit(rest, ";"@), "::"@);
            if n.len() > 0 && n != "namespace"@ {
                seq![(n, None)]
            } else {
                Seq::empty()
            }
        },
        None => Seq::empty(),
    };
    inc + using
}

/// The module a `prefix path` import line names: the first word of its last
/// `/` or `.` separated part.
pub open spec fn simple_line_refs(line: Seq<char>, prefix: Seq<char>) -> Seq<(Seq<char>, Option<Seq<char>>)> {
    match strip_prefix(trim(line), prefix) {
        Some(rest) => {
            let cleaned = trim_by(trim_end_lit(trim(rest), ";"@), in_set("\"'"@));
            let w = words(last_piece(cleaned, in_set("/."@)));
            if w.len() > 0 {
                seq![(w[0], layer_of_import(line))]
            } else {
                Seq::empty()
            }
        },
        None => Seq::empty(),
    }
}

/// The class a PHP `use` line brings in.
pub open spec fn php_line_refs(line: Seq<char>) -> Seq<(Seq<char>, Option<Seq<char>>)> {
    match strip_prefix(trim(line), "use "@) {
        Some(rest) => {
            let n = last_piece(before_first_str(trim_end_lit(rest, ";"@), " as "@), in_set("\\"@));
            if n.len() > 0 {
                seq![(n, None)]
            } else {
                Seq::empty()
            }
        },
        None => Seq::empty(),
    }
}

/// The import line grammars collected line by line.
#[derive(Clone, Copy, PartialEq, Eq, Structural)]
pub enum ImportStyle {
    Rust,
    Cpp,
    Simple,
    Php,
}

/// The names one line brings in under a grammar.
pub open spec fn line_refs(line: Seq<char>, style: ImportStyle, prefix: Seq<char>) -> Seq<(Seq<char>, Option<Seq<char>>)> {
    match style {
        ImportStyle::Rust => rust_line_refs(line),
        ImportStyle::Cpp => cpp_line_refs(line),
        ImportStyle::Simple => simple_line_refs(line, prefix),
        ImportStyle::Php => php_line_refs(line),
    }
}

/// The names all lines bring in, in order.
pub open spec fn all_line_refs(ls: Seq<Seq<char>>, style: ImportStyle, prefix: Seq<char>) -> Seq<(Seq<char>, Option<Seq<char>>)>
    decreases ls.len(),
{
    if ls.len() == 0 {
        Seq::empty()
    } else {
        all_line_refs(ls.drop_last(), style, prefix) + line_refs(ls.last(), style, prefix)
    }
}

fn one_ref(name: &[char], layer: Option<String>) -> (r: Vec<ImportRef>)
    ensures
        import_views(r@) == seq![(name@, opt_view(layer))],
{
    let mut out: Vec<ImportRef> = Vec::new();
    let ghost l = opt_view(layer);
    out.push((string_of(name), layer));
    assert(import_views(out@) =~= seq![(name@, l)]);
    out
}

fn no_refs() -> (r: Vec<ImportRef>)
    ensures
        import_views(r@) == Seq::<(Seq<char>, Option<Seq<char>>)>::empty(),
{
    let out: Vec<ImportRef> = Vec::new();
    assert(import_views(out@) =~= Seq::<(Seq<char>, Option<Seq<char>>)>::empty());
    out
}

fn first_word_or_empty(s: &[char]) -> (r: Vec<char>)
    ensures
        r@ == (if words(s@).len() > 0 {
            words(s@)[0]
        } else {
            Seq::empty()
        }),
{
    let ws = split_whitespace(s);
    if ws.len() > 0 {
        assert(seqs_view(ws@)[0] == ws@[0]@);
        let r = crate::graph::slice_from(ws[0].as_slice(), 0);
        assert(r@ =~= ws@[0]@);
        r
    } else {
        Vec::new()
    }
}

fn rust_refs(line: &[char]) -> (r: Vec<ImportRef>)
    ensures
        import_views(r@) == rust_line_refs(line@),
{
    let t = trim_ws(line);
    if !starts_with(t.as_slice(), chars_of("use ").as_slice()) {
        return no_refs();
    }
    let a = trim_start_str(t.as_slice(), "use ");
    let body = trim_end_str(a.as_slice(), ";");
    let brace = chars_of("{");
    let open = crate::strs::find_set(body.as_slice(), brace.as_slice());
    if open < body.len() {
        let after = crate::graph::slice_from(body.as_slice(), open + 1);
        let group = trim_end_str(after.as_slice(), "}");
        let pieces = crate::recognize::split_char(group.as_slice(), ',');
        let ghost pv = seqs_view(pieces@);
        let mut out: Vec<ImportRef> = Vec::new();
        let mut k: usize = 0;
        while k < pieces.len()
            invariant
                k <= pieces@.len(),
                pv == seqs_view(pieces@),
                import_views(out@) == rust_group_names(pv.take(k as int)),
            decreases pieces.len() - k,
        {
            let p = trim_ws(pieces[k].as_slice());
            let n0 = first_word_or_empty(p.as_slice());
            let n1 = after_last_lit(n0.as_slice(), "::");
            let w2 = split_whitespace(n1.as_slice());
            let n = if w2.len() > 0 {
                assert(seqs_view(w2@)[0] == w2@[0]@);
                let r = crate::graph::slice_from(w2[0].as_slice(), 0);
                assert(r@ =~= w2@[0]@);
                r
            } else {
                n1
            };
            proof {
                let t2 = pv.take(k + 1);
                assert(t2.drop_last() =~= pv.take(k as int));
                assert(t2.last() == pieces@[k as int]@);
                assert(n@ == rust_group_name(pieces@[k as int]@));
            }
            if n.len() > 0 && !eq_lit(n.as_slice(), "self") && !eq_lit(n.as_slice(), "*") {
                let ghost o0 = import_views(out@);
                out.push((string_of(n.as_slice()), None));
                assert(import_views(out@) =~= o0.push((n@, None)));
            }
            k += 1;
        }
        assert(pv.take(pieces@.len() as int) =~= pv);
        out
    } else {
        let n = after_last_lit(body.as_slice(), "::");
        if n.len() > 0 && !eq_lit(n.as_slice(), "crate") && !eq_lit(n.as_slice(), "self") && !eq_lit(n.as_slice(), "super")
            && !eq_lit(n.as_slice(), "*") {
            one_ref(n.as_slice(), None)
        } else {
            no_refs()
        }
    }
}

fn cpp_refs(line: &[char]) -> (r: Vec<ImportRef>)
    ensures
        import_views(r@) == cpp_line_refs(line@),
{
    let t = trim_ws(line);
    let inc = match strip_prefix_str(t.as_slice(), "#include") {
        Some(rest) => {
            let rt = trim_ws(rest.as_slice());
            let a = crate::strs::trim_start_set(rt.as_slice(), chars_of("<\"").as_slice());
            let r = crate::strs::trim_end_set(a.as_slice(), chars_of(">\"").as_slice());
            let last = last_piece_set(r.as_slice(), chars_of("/").as_slice());
            let s1 = trim_end_str(last.as_slice(), ".h");
            let stem = trim_end_str(s1.as_slice(), ".hpp");
            if stem.len() > 0 {
                one_ref(stem.as_slice(), None)
            } else {
                no_refs()
            }
        },
        None => no_refs(),
    };
    let using = match strip_prefix_str(t.as_slice(), "using ") {
        Some(rest) => {
            let a = trim_end_str(rest.as_slice(), ";");
            let n = after_last_lit(a.as_slice(), "::");
            if n.len() > 0 && !eq_lit(n.as_slice(), "namespace") {
                one_ref(n.as_slice(), None)
            } else {
                no_refs()
            }
        },
        None => no_refs(),
    };
    let mut out = inc;
    let ghost a = import_views(out@);
    let mut u = using;
    let ghost b = import_views(u@);
    out.append(&mut u);
    assert(import_views(out@) =~= a + b);
    out
}

fn simple_refs(line: &[char], prefix: &str) -> (r: Vec<ImportRef>)
    ensures
        import_views(r@) == simple_line_refs(line@, prefix@),
{
    let t = trim_ws(line);
    match strip_prefix_str(t.as_slice(), prefix) {
        Some(rest) => {
            let a = trim_ws(rest.as_slice());
            let b = trim_end_str(a.as_slice(), ";");
            let cleaned = trim_set(b.as_slice(), chars_of("\"'").as_slice());
            let last = last_piece_set(cleaned.as_slice(), chars_of("/.").as_slice());
            let w = split_whitespace(last.as_slice());
            if w.len() > 0 {
                assert(seqs_view(w@)[0] == w@[0]@);
                let layer = layer_for_import(line);
                one_ref(w[0].as_slice(), layer)
            } else {
                no_refs()
            }
        },
        None => no_refs(),
    }
}

fn php_refs(line: &[char]) -> (r: Vec<ImportRef>)
    ensures
        import_views(r@) == php_line_refs(line@),
{
    let t = trim_ws(line);
    match strip_prefix_str(t.as_slice(), "use ") {
        Some(rest) => {
            let a = trim_end_str(rest.as_slice(), ";");
            let b = before_first_lit(a.as_slice(), " as ");
            let n = last_piece_set(b.as_slice(), chars_of("\\").as_slice());
            if n.len() > 0 {
                one_ref(n.as_slice(), None)
            } else {
                no_refs()
            }
        },
        None => no_refs(),
    }
}

fn line_imports(line: &[char], style: ImportStyle, prefix: &str) -> (r: Vec<ImportRef>)
    ensures
        import_views(r@) == line_refs(line@, style, prefix@),
{
    match style {
        ImportStyle::Rust => rust_refs(line),
        ImportStyle::Cpp => cpp_refs(line),
        ImportStyle::Simple => simple_refs(line, prefix),
        ImportStyle::Php => php_refs(line),
    }
}

/// Collects the names imported by every line under a grammar.
pub fn collect_imports(content: &[char], style: ImportStyle, prefix: &str) -> (r: Vec<ImportRef>)
    ensures
        import_views(r@) == all_line_refs(lines(content@), style, prefix@),
{
    let ls = lines_of(content);
    let ghost lv = seqs_view(ls@);
    let mut out: Vec<ImportRef> = Vec::new();
    let mut i: usize = 0;
    while i < ls.len()
        invariant
            i <= ls@.len(),
            lv == seqs_view(ls@),
            import_views(out@) == all_line_refs(lv.take(i as int), style, prefix@),
        decreases ls.len() - i,
    {
        proof {
            let t = lv.take(i + 1);
            assert(t.drop_last() =~= lv.take(i as int));
            assert(t.last() == ls@[i as int]@);
        }
        let mut more = line_imports(ls[i].as_slice(), style, prefix);
        let ghost a = import_views(out@);
        let ghost b = import_views(more@);
        out.append(&mut more);
        assert(import_views(out@) =~= a + b);
        i += 1;
    }
    assert(lv.take(ls@.len() as int) =~= lv);
    out
}


} // verus!
