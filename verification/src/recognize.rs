//! Small recognizers over source lines: declaration keywords, identifier
//! mentions, import symbols, architectural layer hints and qualified type
//! references.
use crate::strs::{
    contains_lit, contains_str, find_set, first_index, first_piece, first_piece_set, in_set, is_ws, seqs_view,
    split_on, split_whitespace, to_lower, to_lower_chars, trim, trim_by, trim_set, trim_start_lit, trim_start_str, trim_ws,
    words,
};
use crate::text::{chars_equal, chars_of, eq_lit, has_prefix, is_ident_char, is_ident_continue, push_all, push_str, starts_with, string_of, strs_view};
use vstd::prelude::*;

verus! {

broadcast use vstd::string::group_string_axioms;

/// The number of occurrences of `c` in `s`.
pub open spec fn count_of(s: Seq<char>, c: char) -> nat
    decreases s.len(),
{
    if s.len() == 0 {
        0
    } else {
        count_of(s.drop_last(), c) + if s.last() == c {
            1nat
        } else {
            0nat
        }
    }
}

/// Counts the occurrences of `needle` in `value`.
pub fn count_char(value: &[char], needle: char) -> (r: usize)
    ensures
        r == count_of(value@, needle),
{
    let mut n: usize = 0;
    let mut i: usize = 0;
    while i < value.len()
        invariant
            i <= value@.len(),
            n == count_of(value@.take(i as int), needle),
            n <= i,
        decreases value.len() - i,
    {
        proof {
            let t = value@.take(i + 1);
            assert(t.drop_last() =~= value@.take(i as int));
        }
        if value[i] == needle {
            n += 1;
        }
        i += 1;
    }
    assert(value@.take(value@.len() as int) =~= value@);
    n
}

/// The position of the first word equal to `kw`, or the number of words.
pub open spec fn word_index(ws: Seq<Seq<char>>, kw: Seq<char>) -> int
    decreases ws.len(),
{
    if ws.len() == 0 {
        0
    } else if ws[0] == kw {
        0
    } else {
        1 + word_index(ws.skip(1), kw)
    }
}

proof fn lemma_word_index(ws: Seq<Seq<char>>, kw: Seq<char>, i: int)
    requires
        0 <= i <= ws.len(),
        forall|j: int| 0 <= j < i ==> #[trigger] ws[j] != kw,
        i == ws.len() || ws[i] == kw,
    ensures
        word_index(ws, kw) == i,
    decreases i,
{
    if i > 0 {
        assert forall|j: int| 0 <= j < i - 1 implies #[trigger] ws.skip(1)[j] != kw by {
            assert(ws.skip(1)[j] == ws[j + 1]);
        }
        if i < ws.len() {
            assert(ws.skip(1)[i - 1] == ws[i]);
        }
        lemma_word_index(ws.skip(1), kw, i - 1);
    }
}

fn find_word(ws: &Vec<Vec<char>>, kw: &[char]) -> (r: usize)
    ensures
        r == word_index(seqs_view(ws@), kw@),
        r <= ws@.len(),
{
    let ghost v = seqs_view(ws@);
    let mut i: usize = 0;
    while i < ws.len() && !chars_equal(ws[i].as_slice(), kw)
        invariant
            v == seqs_view(ws@),
            i <= ws@.len(),
            forall|j: int| 0 <= j < i ==> #[trigger] v[j] != kw@,
        decreases ws.len() - i,
    {
        i += 1;
    }
    proof {
        lemma_word_index(v, kw@, i as int);
    }
    i
}

/// The characters trimmed from a declared name.
pub open spec fn name_trim() -> Seq<char> {
    "{}():,;"@
}

/// The characters that end a declared name.
pub open spec fn name_stop() -> Seq<char> {
    "<({"@
}

/// The name declared after the word `kw`: the next word with punctuation
/// trimmed, up to any `<`, `(` or `{`; none when empty or when `kw` is not a
/// word of the line.
pub open spec fn keyword_name(line: Seq<char>, kw: Seq<char>) -> Option<Seq<char>> {
    let ws = words(line);
    let i = word_index(ws, kw);
    if i + 1 < ws.len() {
        let name = first_piece(trim_by(ws[i + 1], in_set(name_trim())), in_set(name_stop()));
        if name.len() > 0 {
            Some(name)
        } else {
            None
        }
    } else {
        None
    }
}

/// The name declared after the keyword `keyword` in `line`, if any.
pub fn after_keyword(line: &[char], keyword: &str) -> (r: Option<Vec<char>>)
    ensures
        match r {
            Some(v) => keyword_name(line@, keyword@) == Some(v@),
            None => keyword_name(line@, keyword@) is None,
        },
{
    let ws = split_whitespace(line);
    let kw = chars_of(keyword);
    let i = find_word(&ws, kw.as_slice());
    if i >= ws.len() || i + 1 >= ws.len() {
        return None;
    }
    let trim_chars = chars_of("{}():,;");
    let stop = chars_of("<({");
    let t = trim_set(ws[i + 1].as_slice(), trim_chars.as_slice());
    let name = first_piece_set(t.as_slice(), stop.as_slice());
    assert(seqs_view(ws@)[i + 1] == ws@[i + 1]@);
    if name.len() > 0 {
        Some(name)
    } else {
        None
    }
}

/// Words joined with single spaces.
pub open spec fn join_words(ws: Seq<Seq<char>>) -> Seq<char>
    decreases ws.len(),
{
    if ws.len() == 0 {
        Seq::empty()
    } else if ws.len() == 1 {
        ws[0]
    } else {
        join_words(ws.drop_last()) + seq![' '] + ws.last()
    }
}

/// One name of a comma-separated list: trimmed, `:` and `;` stripped, cut
/// at `<`, `(` or `{`, trimmed again.
pub open spec fn list_name(seg: Seq<char>) -> Seq<char> {
    trim(first_piece(trim_by(trim(seg), in_set(":;"@)), in_set(name_stop())))
}

/// The non-empty names of a list of segments.
pub open spec fn list_names(segs: Seq<Seq<char>>) -> Seq<Seq<char>>
    decreases segs.len(),
{
    if segs.len() == 0 {
        Seq::empty()
    } else {
        let rest = list_names(segs.drop_last());
        let n = list_name(segs.last());
        if n.len() > 0 {
            rest.push(n)
        } else {
            rest
        }
    }
}

/// Every name listed after the word `kw`, up to the body brace, split at commas.
pub open spec fn keyword_names(line: Seq<char>, kw: Seq<char>) -> Seq<Seq<char>> {
    let ws = words(line);
    let i = word_index(ws, kw);
    if i >= ws.len() {
        Seq::empty()
    } else {
        list_names(split_on(first_piece(join_words(ws.skip(i + 1)), in_set("{"@)), ','))
    }
}

fn join_from(ws: &Vec<Vec<char>>, start: usize) -> (r: Vec<char>)
    requires
        start <= ws@.len(),
    ensures
        r@ == join_words(seqs_view(ws@).skip(start as int)),
{
    let ghost v = seqs_view(ws@).skip(start as int);
    let mut out: Vec<char> = Vec::new();
    let mut i: usize = start;
    while i < ws.len()
        invariant
            start <= i <= ws@.len(),
            v == seqs_view(ws@).skip(start as int),
            out@ == join_words(v.take(i - start)),
        decreases ws.len() - i,
    {
        let ghost before = out@;
        if i > start {
            out.push(' ');
        }
        push_all(&mut out, ws[i].as_slice());
        proof {
            let t = v.take(i - start + 1);
            assert(t.drop_last() =~= v.take(i - start));
            assert(t.last() == ws@[i as int]@);
            if i == start {
                assert(out@ =~= t[0]);
            } else {
                assert(out@ =~= before + seq![' '] + t.last());
            }
        }
        i += 1;
    }
    assert(v.take(ws@.len() - start) =~= v);
    out
}

/// The pieces of `s` between occurrences of `sep`.
pub fn split_char(s: &[char], sep: char) -> (r: Vec<Vec<char>>)
    ensures
        seqs_view(r@) == split_on(s@, sep),
        r@.len() >= 1,
{
    let mut parts: Vec<Vec<char>> = Vec::new();
    parts.push(Vec::new());
    proof {
        assert(split_on(s@.take(0), sep) =~= seq![Seq::<char>::empty()]);
    }
    let mut i: usize = 0;
    while i < s.len()
        invariant
            i <= s@.len(),
            parts@.len() >= 1,
            seqs_view(parts@) == split_on(s@.take(i as int), sep),
        decreases s.len() - i,
    {
        let ghost before = seqs_view(parts@);
        proof {
            let t = s@.take(i + 1);
            assert(t.drop_last() =~= s@.take(i as int));
            assert(t.last() == s@[i as int]);
        }
        if s[i] == sep {
            parts.push(Vec::new());
            assert(seqs_view(parts@) =~= before.push(Seq::empty()));
        } else {
            let mut last = parts.pop().unwrap();
            let ghost lv = last@;
            last.push(s[i]);
            parts.push(last);
            assert(lv == before.last());
            assert(seqs_view(parts@) =~= before.update(before.len() - 1, before.last().push(s@[i as int])));
        }
        i += 1;
    }
    assert(s@.take(s@.len() as int) =~= s@);
    parts
}

fn list_name_of(seg: &[char]) -> (r: Vec<char>)
    ensures
        r@ == list_name(seg@),
{
    let a = trim_ws(seg);
    let set = chars_of(":;");
    let b = trim_set(a.as_slice(), set.as_slice());
    let stop = chars_of("<({");
    let c = first_piece_set(b.as_slice(), stop.as_slice());
    trim_ws(c.as_slice())
}

fn list_names_of(segs: &Vec<Vec<char>>) -> (r: Vec<Vec<char>>)
    ensures
        seqs_view(r@) == list_names(seqs_view(segs@)),
{
    let ghost v = seqs_view(segs@);
    let mut out: Vec<Vec<char>> = Vec::new();
    let mut i: usize = 0;
    while i < segs.len()
        invariant
            i <= segs@.len(),
            v == seqs_view(segs@),
            seqs_view(out@) == list_names(v.take(i as int)),
        decreases segs.len() - i,
    {
        let n = list_name_of(segs[i].as_slice());
        let ghost before = seqs_view(out@);
        proof {
            let t = v.take(i + 1);
            assert(t.drop_last() =~= v.take(i as int));
            assert(t.last() == segs@[i as int]@);
        }
        if n.len() > 0 {
            let ghost nv = n@;
            out.push(n);
            assert(seqs_view(out@) =~= before.push(nv));
        }
        i += 1;
    }
    assert(v.take(segs@.len() as int) =~= v);
    out
}

/// Every name listed after the keyword `keyword` in `line`.
pub fn after_keyword_all(line: &[char], keyword: &str) -> (r: Vec<Vec<char>>)
    ensures
        seqs_view(r@) == keyword_names(line@, keyword@),
{
    let ws = split_whitespace(line);
    let kw = chars_of(keyword);
    let i = find_word(&ws, kw.as_slice());
    if i >= ws.len() {
        let r: Vec<Vec<char>> = Vec::new();
        assert(seqs_view(r@) =~= Seq::<Seq<char>>::empty());
        return r;
    }
    let rest = join_from(&ws, i + 1);
    let brace = chars_of("{");
    let head = first_piece_set(rest.as_slice(), brace.as_slice());
    let segs = split_char(head.as_slice(), ',');
    list_names_of(&segs)
}


/// Whether `name` appears at `i` in `body` as a whole identifier.
pub open spec fn mention_at(body: Seq<char>, name: Seq<char>, i: int) -> bool {
    &&& crate::strs::occurs_at(body, name, i)
    &&& (i == 0 || !is_ident_char(body[i - 1]))
    &&& (i + name.len() == body.len() || !is_ident_char(body[i + name.len()]))
}

/// Whether a non-empty `name` appears in `body` as a whole identifier.
pub open spec fn mentions(body: Seq<char>, name: Seq<char>) -> bool {
    name.len() > 0 && exists|i: int| #[trigger] mention_at(body, name, i)
}

/// Whether `body` contains `name` as a whole identifier token.
pub fn body_mentions(body: &[char], name: &[char]) -> (r: bool)
    ensures
        r == mentions(body@, name@),
{
    if name.len() == 0 || name.len() > body.len() {
        proof {
            if name@.len() > 0 {
                assert forall|i: int| !#[trigger] mention_at(body@, name@, i) by {}
            }
        }
        return false;
    }
    let mut i: usize = 0;
    while i <= body.len() - name.len()
        invariant
            1 <= name@.len() <= body@.len(),
            i <= body@.len() - name@.len() + 1,
            forall|j: int| 0 <= j < i ==> !#[trigger] mention_at(body@, name@, j),
        decreases body.len() - name.len() + 1 - i,
    {
        if crate::strs::occurs_at_exec(body, name, i) {
            let before_ok = i == 0 || !is_ident_continue(body[i - 1]);
            let after_ok = i + name.len() == body.len() || !is_ident_continue(body[i + name.len()]);
            if before_ok && after_ok {
                assert(mention_at(body@, name@, i as int));
                return true;
            }
        }
        i += 1;
    }
    proof {
        assert forall|j: int| !#[trigger] mention_at(body@, name@, j) by {
            if j >= i {
                assert(!crate::strs::occurs_at(body@, name@, j));
            }
        }
    }
    false
}

/// The architectural layer suggested by a source path.
#[verifier::opaque]
pub open spec fn layer_of_path(path: Seq<char>) -> Option<Seq<char>> {
    let lower = to_lower(path);
    if contains_str(lower, "/api/"@) || has_prefix(lower, "api/"@) || contains_str(lower, "controller"@) {
        Some("api"@)
    } else if contains_str(lower, "/infrastructure/"@) || has_prefix(lower, "infrastructure/"@) || contains_str(
        lower,
        "/infra/"@,
    ) || has_prefix(lower, "infra/"@) {
        Some("infrastructure"@)
    } else if contains_str(lower, "repository"@) || contains_str(lower, "/data/"@) || has_prefix(lower, "data/"@)
        || contains_str(lower, "/db/"@) || has_prefix(lower, "db/"@) {
        Some("data"@)
    } else if contains_str(lower, "service"@) || contains_str(lower, "/domain/"@) || has_prefix(lower, "domain/"@) {
        Some("service"@)
    } else {
        None
    }
}

/// The architectural layer suggested by a source path.
pub fn layer_for_path(path: &[char]) -> (r: Option<String>)
    ensures
        crate::model::opt_view(r) == layer_of_path(path@),
{
    reveal(layer_of_path);
    let lower = to_lower_chars(path);
    let l = lower.as_slice();
    if contains_lit(l, "/api/") || starts_with(l, chars_of("api/").as_slice()) || contains_lit(l, "controller") {
        Some(crate::text::owned("api"))
    } else if contains_lit(l, "/infrastructure/") || starts_with(l, chars_of("infrastructure/").as_slice()) || contains_lit(
        l,
        "/infra/",
    ) || starts_with(l, chars_of("infra/").as_slice()) {
        Some(crate::text::owned("infrastructure"))
    } else if contains_lit(l, "repository") || contains_lit(l, "/data/") || starts_with(l, chars_of("data/").as_slice())
        || contains_lit(l, "/db/") || starts_with(l, chars_of("db/").as_slice()) {
        Some(crate::text::owned("data"))
    } else if contains_lit(l, "service") || contains_lit(l, "/domain/") || starts_with(
        l,
        chars_of("domain/").as_slice(),
    ) {
        Some(crate::text::owned("service"))
    } else {
        None
    }
}

/// The architectural layer suggested by an import line.
pub open spec fn layer_of_import(line: Seq<char>) -> Option<Seq<char>> {
    if contains_str(line, "infrastructure"@) {
        Some("infrastructure"@)
    } else if contains_str(line, "api"@) {
        Some("api"@)
    } else {
        None
    }
}

/// The architectural layer suggested by an import line.
pub fn layer_for_import(line: &[char]) -> (r: Option<String>)
    ensures
        crate::model::opt_view(r) == layer_of_import(line@),
{
    if contains_lit(line, "infrastructure") {
        Some(crate::text::owned("infrastructure"))
    } else if contains_lit(line, "api") {
        Some(crate::text::owned("api"))
    } else {
        None
    }
}

/// The architectural layer suggested by a package qualifier.
pub open spec fn layer_of_reference(qualifier: Seq<char>) -> Option<Seq<char>> {
    let lower = to_lower(qualifier);
    if contains_str(lower, "repo"@) || contains_str(lower, "data"@) || contains_str(lower, "db"@) {
        Some("data"@)
    } else if contains_str(lower, "infra"@) || contains_str(lower, "cache"@) {
        Some("infrastructure"@)
    } else if contains_str(lower, "api"@) || contains_str(lower, "controller"@) {
        Some("api"@)
    } else if contains_str(lower, "service"@) || contains_str(lower, "domain"@) {
        Some("service"@)
    } else {
        None
    }
}

/// The architectural layer suggested by a package qualifier.
pub fn layer_for_reference(qualifier: &[char]) -> (r: Option<String>)
    ensures
        crate::model::opt_view(r) == layer_of_reference(qualifier@),
{
    let lower = to_lower_chars(qualifier);
    let l = lower.as_slice();
    if contains_lit(l, "repo") || contains_lit(l, "data") || contains_lit(l, "db") {
        Some(crate::text::owned("data"))
    } else if contains_lit(l, "infra") || contains_lit(l, "cache") {
        Some(crate::text::owned("infrastructure"))
    } else if contains_lit(l, "api") || contains_lit(l, "controller") {
        Some(crate::text::owned("api"))
    } else if contains_lit(l, "service") || contains_lit(l, "domain") {
        Some(crate::text::owned("service"))
    } else {
        None
    }
}

/// The Go type declared by a `prefix ... marker` line: the first word after the prefix.
pub open spec fn go_type_of(line: Seq<char>, prefix: Seq<char>, marker: Seq<char>) -> Option<Seq<char>> {
    if !has_prefix(line, prefix) || !contains_str(line, marker) {
        None
    } else {
        let ws = words(trim_start_lit(line, prefix));
        if ws.len() > 0 {
            Some(ws[0])
        } else {
            None
        }
    }
}

/// The Go type declared by a `prefix ... marker` line, if any.
pub fn go_type_name(line: &[char], prefix: &str, marker: &str) -> (r: Option<Vec<char>>)
    ensures
        match r {
            Some(v) => go_type_of(line@, prefix@, marker@) == Some(v@),
            None => go_type_of(line@, prefix@, marker@) is None,
        },
{
    let p = chars_of(prefix);
    if !starts_with(line, p.as_slice()) || !contains_lit(line, marker) {
        return None;
    }
    let rest = trim_start_str(line, prefix);
    let ws = split_whitespace(rest.as_slice());
    if ws.len() > 0 {
        assert(seqs_view(ws@)[0] == ws@[0]@);
        Some(crate::graph::slice_from(ws[0].as_slice(), 0))
    } else {
        None
    }
}


/// Whether `c` has the Unicode `Uppercase` property.
pub uninterp spec fn unicode_uppercase(c: char) -> bool;

/// `char::is_uppercase`: whether `c` has the Unicode `Uppercase` property.
/// The contract names that property and states what std documents of it for
/// ASCII: exactly `A` to `Z` are upper case there.
#[verifier::external_body]
fn char_is_uppercase(c: char) -> (r: bool)
    ensures
        r == unicode_uppercase(c),
        (c as u32) < 128 ==> (r <==> ('A' <= c && c <= 'Z')),
{
    c.is_uppercase()
}

/// Whether `s` starts with an upper-case character.
pub open spec fn starts_upper(s: Seq<char>) -> bool {
    s.len() > 0 && unicode_uppercase(s[0])
}

pub fn starts_uppercase(s: &[char]) -> (r: bool)
    ensures
        r == starts_upper(s@),
{
    s.len() > 0 && char_is_uppercase(s[0])
}

/// The first word of each piece that has one.
pub open spec fn first_words(parts: Seq<Seq<char>>) -> Seq<Seq<char>>
    decreases parts.len(),
{
    if parts.len() == 0 {
        Seq::empty()
    } else {
        let rest = first_words(parts.drop_last());
        let ws = words(parts.last());
        if ws.len() > 0 {
            rest.push(ws[0])
        } else {
            rest
        }
    }
}

/// The symbols an import line brings in: the first word of each comma
/// separated entry between the first `{` and the next `}`; otherwise the
/// line's second word when it starts upper case, braces and commas trimmed.
pub open spec fn imported_names(line: Seq<char>) -> Seq<Seq<char>> {
    let open = first_index(line, in_set("{"@));
    let after = line.skip(open + 1);
    let close = first_index(after, in_set("}"@));
    if open < line.len() && close < after.len() {
        first_words(split_on(after.take(close), ','))
    } else {
        let ws = words(line);
        if ws.len() > 1 && starts_upper(ws[1]) {
            seq![trim_by(ws[1], in_set("{},"@))]
        } else {
            Seq::empty()
        }
    }
}

fn first_words_of(parts: &Vec<Vec<char>>) -> (r: Vec<Vec<char>>)
    ensures
        seqs_view(r@) == first_words(seqs_view(parts@)),
{
    let ghost v = seqs_view(parts@);
    let mut out: Vec<Vec<char>> = Vec::new();
    let mut i: usize = 0;
    while i < parts.len()
        invariant
            i <= parts@.len(),
            v == seqs_view(parts@),
            seqs_view(out@) == first_words(v.take(i as int)),
        decreases parts.len() - i,
    {
        let ws = split_whitespace(parts[i].as_slice());
        let ghost before = seqs_view(out@);
        proof {
            let t = v.take(i + 1);
            assert(t.drop_last() =~= v.take(i as int));
            assert(t.last() == parts@[i as int]@);
        }
        if ws.len() > 0 {
            let w = crate::graph::slice_from(ws[0].as_slice(), 0);
            assert(seqs_view(ws@)[0] == ws@[0]@);
            assert(w@ =~= ws@[0]@);
            let ghost wv = w@;
            out.push(w);
            assert(seqs_view(out@) =~= before.push(wv));
        }
        i += 1;
    }
    assert(v.take(parts@.len() as int) =~= v);
    out
}

/// The symbols an import line brings in.
pub fn imported_symbols(line: &[char]) -> (r: Vec<Vec<char>>)
    ensures
        seqs_view(r@) == imported_names(line@),
{
    let open_set = chars_of("{");
    let close_set = chars_of("}");
    let open = find_set(line, open_set.as_slice());
    if open < line.len() {
        let after = crate::graph::slice_from(line, open + 1);
        let close = find_set(after.as_slice(), close_set.as_slice());
        if close < after.len() {
            let inner = crate::strs::take_chars(after.as_slice(), close);
            let parts = split_char(inner.as_slice(), ',');
            return first_words_of(&parts);
        }
    }
    let ws = split_whitespace(line);
    if ws.len() > 1 && starts_uppercase(ws[1].as_slice()) {
        let set = chars_of("{},");
        let t = trim_set(ws[1].as_slice(), set.as_slice());
        assert(seqs_view(ws@)[1] == ws@[1]@);
        let mut out: Vec<Vec<char>> = Vec::new();
        let ghost tv = t@;
        out.push(t);
        assert(seqs_view(out@) =~= seq![tv]);
        out
    } else {
        let out: Vec<Vec<char>> = Vec::new();
        assert(seqs_view(out@) =~= Seq::<Seq<char>>::empty());
        out
    }
}

/// The upper-case form of an ASCII letter; other characters unchanged.
pub open spec fn upper_char(c: char) -> char {
    if 'a' <= c && c <= 'z' {
        "ABCDEFGHIJKLMNOPQRSTUVWXYZ"@[(c as u32 - 97) as int]
    } else {
        c
    }
}

fn to_upper_char(c: char) -> (r: char)
    ensures
        r == upper_char(c),
{
    let table = chars_of("ABCDEFGHIJKLMNOPQRSTUVWXYZ");
    proof {
        reveal_strlit("ABCDEFGHIJKLMNOPQRSTUVWXYZ");
    }
    if 'a' <= c && c <= 'z' {
        table[(c as u32 - 97) as usize]
    } else {
        c
    }
}

/// The non-empty `_`-separated pieces, each with its first letter raised, joined.
pub open spec fn camel_pieces(ps: Seq<Seq<char>>) -> Seq<char>
    decreases ps.len(),
{
    if ps.len() == 0 {
        Seq::empty()
    } else {
        let p = ps.last();
        camel_pieces(ps.drop_last()) + if p.len() > 0 {
            seq![upper_char(p[0])] + p.skip(1)
        } else {
            Seq::empty()
        }
    }
}

/// A `snake_case` name in `CamelCase`.
pub open spec fn camel_of(value: Seq<char>) -> Seq<char> {
    camel_pieces(split_on(value, '_'))
}

/// Converts a `snake_case` stem to its `CamelCase` constant name.
pub fn snake_to_camel(value: &[char]) -> (r: Vec<char>)
    ensures
        r@ == camel_of(value@),
{
    let parts = split_char(value, '_');
    let ghost v = seqs_view(parts@);
    let mut out: Vec<char> = Vec::new();
    let mut i: usize = 0;
    while i < parts.len()
        invariant
            i <= parts@.len(),
            v == seqs_view(parts@),
            out@ == camel_pieces(v.take(i as int)),
        decreases parts.len() - i,
    {
        let p = &parts[i];
        let ghost before = out@;
        if p.len() > 0 {
            out.push(to_upper_char(p[0]));
            let rest = crate::graph::slice_from(p.as_slice(), 1);
            push_all(&mut out, rest.as_slice());
        }
        proof {
            let t = v.take(i + 1);
            assert(t.drop_last() =~= v.take(i as int));
            assert(t.last() == p@);
            if p@.len() > 0 {
                assert(out@ =~= before + (seq![upper_char(p@[0])] + p@.skip(1)));
            } else {
                assert(out@ =~= before + Seq::<char>::empty());
            }
        }
        i += 1;
    }
    assert(v.take(parts@.len() as int) =~= v);
    out
}


/// The end of the identifier run starting at `i`: the first position at or
/// after `i` that does not continue an identifier.
pub open spec fn ident_end(cs: Seq<char>, i: int) -> int
    decreases cs.len() - i,
{
    if i < 0 || i >= cs.len() || !is_ident_char(cs[i]) {
        i
    } else {
        ident_end(cs, i + 1)
    }
}

pub proof fn lemma_ident_end(cs: Seq<char>, i: int)
    requires
        0 <= i <= cs.len(),
    ensures
        i <= ident_end(cs, i) <= cs.len(),
    decreases cs.len() - i,
{
    if i < cs.len() && is_ident_char(cs[i]) {
        lemma_ident_end(cs, i + 1);
    }
}

/// The `qualifier.Target` references from position `i` on: an identifier, a
/// dot, and an identifier starting upper case.
pub open spec fn qrefs(cs: Seq<char>, i: int) -> Seq<(Seq<char>, Seq<char>)>
    decreases cs.len() - i,
{
    if i < 0 || i >= cs.len() {
        Seq::empty()
    } else if crate::text::is_ident_start_char(cs[i]) {
        let e = ident_end(cs, i + 1);
        proof {
            lemma_ident_end(cs, i + 1);
        }
        if e < cs.len() && cs[e] == '.' && i < e {
            let t0 = e + 1;
            if t0 < cs.len() && crate::text::is_ident_start_char(cs[t0]) {
                let e2 = ident_end(cs, t0 + 1);
                proof {
                    lemma_ident_end(cs, t0 + 1);
                }
                if t0 < e2 {
                    (if 'A' <= cs[t0] && cs[t0] <= 'Z' {
                        seq![(cs.subrange(i, e), cs.subrange(t0, e2))]
                    } else {
                        Seq::empty()
                    }) + qrefs(cs, e2)
                } else {
                    Seq::empty()
                }
            } else {
                qrefs(cs, t0)
            }
        } else if i < e {
            qrefs(cs, e)
        } else {
            Seq::empty()
        }
    } else {
        qrefs(cs, i + 1)
    }
}

/// The character views of a list of pairs.
pub open spec fn pairs_view(v: Seq<(Vec<char>, Vec<char>)>) -> Seq<(Seq<char>, Seq<char>)> {
    v.map_values(|p: (Vec<char>, Vec<char>)| (p.0@, p.1@))
}

fn skip_ident(cs: &[char], i: usize) -> (r: usize)
    requires
        i <= cs@.len(),
    ensures
        r == ident_end(cs@, i as int),
        i <= r <= cs@.len(),
{
    let mut j = i;
    while j < cs.len() && is_ident_continue(cs[j])
        invariant
            i <= j <= cs@.len(),
            ident_end(cs@, i as int) == ident_end(cs@, j as int),
        decreases cs.len() - j,
    {
        j += 1;
    }
    j
}

/// The `qualifier.Target` type references in a line.
pub fn qualified_type_refs(line: &[char]) -> (r: Vec<(Vec<char>, Vec<char>)>)
    ensures
        pairs_view(r@) == qrefs(line@, 0),
{
    let cs = line;
    let mut out: Vec<(Vec<char>, Vec<char>)> = Vec::new();
    let mut index: usize = 0;
    while index < cs.len()
        invariant
            index <= cs@.len(),
            qrefs(cs@, 0) == pairs_view(out@) + qrefs(cs@, index as int),
        decreases cs.len() - index,
    {
        let ghost o0 = pairs_view(out@);
        if crate::text::is_ident_start(cs[index]) {
            let start = index;
            index = skip_ident(cs, index + 1);
            if index < cs.len() && cs[index] == '.' {
                let e = index;
                index += 1;
                if index < cs.len() && crate::text::is_ident_start(cs[index]) {
                    let t0 = index;
                    index = skip_ident(cs, index + 1);
                    if 'A' <= cs[t0] && cs[t0] <= 'Z' {
                        let q = crate::strs::take_chars(crate::graph::slice_from(cs, start).as_slice(), e - start);
                        let t = crate::strs::take_chars(crate::graph::slice_from(cs, t0).as_slice(), index - t0);
                        assert(q@ =~= cs@.subrange(start as int, e as int));
                        assert(t@ =~= cs@.subrange(t0 as int, index as int));
                        out.push((q, t));
                        assert(pairs_view(out@) =~= o0.push((cs@.subrange(start as int, e as int), cs@.subrange(t0 as int, index as int))));
                    }
                    proof {
                        let x: Seq<(Seq<char>, Seq<char>)> = if 'A' <= cs@[t0 as int] && cs@[t0 as int] <= 'Z' {
                            seq![(cs@.subrange(start as int, e as int), cs@.subrange(t0 as int, index as int))]
                        } else {
                            Seq::empty()
                        };
                        assert(qrefs(cs@, start as int) == x + qrefs(cs@, index as int));
                        assert(pairs_view(out@) =~= o0 + x);
                    }
                }
            }
        } else {
            index += 1;
        }
    }
    assert(qrefs(cs@, index as int) =~= Seq::<(Seq<char>, Seq<char>)>::empty());
    out
}


} // verus!
