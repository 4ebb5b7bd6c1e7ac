//! Brace-delimited type bodies and the members declared in them.
use crate::model::{Member, MemberKind, MemberView};
use crate::recognize::{after_keyword, count_char, count_of, keyword_name};
use crate::ops::{has_member_v, member_views};
use crate::strs::{
    contains_lit, contains_str, find_set, first_index, first_piece, first_piece_set, in_set, lines, lines_of, seqs_view,
    split_whitespace, take_chars, trim, trim_by, trim_end_by, trim_end_set, trim_set, trim_start_by, trim_start_lit,
    trim_start_set, trim_start_str, trim_ws, words,
};
use crate::text::{chars_equal, chars_of, has_prefix, is_ident_char, is_ident_continue, push_all, starts_with, string_of};
use vstd::prelude::*;

verus! {

broadcast use vstd::string::group_string_axioms;

/// A type declaration and the text of its body.
pub struct TypeSpan {
    /// The declared name.
    pub name: Vec<char>,
    /// The declaration line and the lines of its body, each ending in `\n`.
    pub body: Vec<char>,
    /// The declaration line.
    pub header: Vec<char>,
}

/// A type span read as plain values.
pub struct SpanView {
    pub name: Seq<char>,
    pub body: Seq<char>,
    pub header: Seq<char>,
}

impl View for TypeSpan {
    type V = SpanView;

    open spec fn view(&self) -> SpanView {
        SpanView { name: self.name@, body: self.body@, header: self.header@ }
    }
}

/// The views of a list of spans.
pub open spec fn span_views(s: Seq<TypeSpan>) -> Seq<SpanView> {
    s.map_values(|x: TypeSpan| x@)
}

/// The name declared by the first keyword of `kws` that declares one in `line`.
pub open spec fn declared_name(line: Seq<char>, kws: Seq<Seq<char>>) -> Option<Seq<char>>
    decreases kws.len(),
{
    if kws.len() == 0 {
        None
    } else {
        match keyword_name(line, kws[0]) {
            Some(n) => Some(n),
            None => declared_name(line, kws.skip(1)),
        }
    }
}

/// The state of a span scan: finished spans, the span being read, brace depth,
/// and whether its opening brace has been seen.
pub struct ScanState {
    pub spans: Seq<SpanView>,
    pub current: Option<SpanView>,
    pub depth: nat,
    pub entered: bool,
}

/// `a + b`, saturating at the largest `usize`.
pub open spec fn sat_add(a: nat, b: nat) -> nat {
    if a + b > usize::MAX {
        usize::MAX as nat
    } else {
        a + b
    }
}

/// `a - b`, saturating at zero.
pub open spec fn sat_sub(a: nat, b: nat) -> nat {
    if a >= b {
        (a - b) as nat
    } else {
        0
    }
}

/// One line of the span scan.
pub open spec fn scan_line(st: ScanState, line: Seq<char>, kws: Seq<Seq<char>>) -> ScanState {
    let opens = count_of(line, '{');
    let closes = count_of(line, '}');
    match st.current {
        Some(span) => {
            let span2 = SpanView { body: span.body + line + seq!['\n'], ..span };
            let entered = st.entered || opens > 0;
            let depth = sat_sub(sat_add(st.depth, opens), closes);
            if entered && depth == 0 {
                ScanState { spans: st.spans.push(span2), current: None, depth, entered: false }
            } else {
                ScanState { spans: st.spans, current: Some(span2), depth, entered }
            }
        },
        None => {
            let stripped = trim(line);
            if stripped.len() == 0 {
                st
            } else {
                match declared_name(stripped, kws) {
                    None => st,
                    Some(name) => {
                        let span = SpanView { name, body: line + seq!['\n'], header: line };
                        if opens == 0 {
                            ScanState { spans: st.spans, current: Some(span), depth: 0, entered: false }
                        } else {
                            let depth = sat_sub(opens, closes);
                            if depth == 0 {
                                ScanState { spans: st.spans.push(span), current: None, depth, entered: st.entered }
                            } else {
                                ScanState { spans: st.spans, current: Some(span), depth, entered: true }
                            }
                        }
                    },
                }
            }
        },
    }
}

/// The scan state after the given lines.
pub open spec fn scan_lines(ls: Seq<Seq<char>>, kws: Seq<Seq<char>>) -> ScanState
    decreases ls.len(),
{
    if ls.len() == 0 {
        ScanState { spans: Seq::empty(), current: None, depth: 0, entered: false }
    } else {
        scan_line(scan_lines(ls.drop_last(), kws), ls.last(), kws)
    }
}

/// The type spans of a file: each declaration introduced by one of `kws`
/// with the lines up to its matching closing brace (to the end of the file
/// when it never closes).
pub open spec fn type_spans(content: Seq<char>, kws: Seq<Seq<char>>) -> Seq<SpanView> {
    let st = scan_lines(lines(content), kws);
    match st.current {
        Some(s) => st.spans.push(s),
        None => st.spans,
    }
}

/// The views of a list of keywords.
pub open spec fn kw_views(k: Seq<&str>) -> Seq<Seq<char>> {
    k.map_values(|x: &str| x@)
}

fn detect_name(line: &[char], keywords: &[&str]) -> (r: Option<Vec<char>>)
    ensures
        match r {
            Some(v) => declared_name(line@, kw_views(keywords@)) == Some(v@),
            None => declared_name(line@, kw_views(keywords@)) is None,
        },
{
    let ghost kv = kw_views(keywords@);
    assert(kv.skip(0) =~= kv);
    let mut i: usize = 0;
    while i < keywords.len()
        invariant
            i <= keywords@.len(),
            kv == kw_views(keywords@),
            declared_name(line@, kv) == declared_name(line@, kv.skip(i as int)),
        decreases keywords.len() - i,
    {
        let ghost rest = kv.skip(i as int);
        assert(rest[0] == keywords@[i as int]@);
        assert(rest.skip(1) =~= kv.skip(i + 1));
        match after_keyword(line, keywords[i]) {
            Some(name) => {
                return Some(name);
            },
            None => {},
        }
        i += 1;
    }
    assert(kv.skip(i as int).len() == 0);
    None
}

fn line_with_newline(line: &[char]) -> (r: Vec<char>)
    ensures
        r@ == line@ + seq!['\n'],
{
    let mut v: Vec<char> = Vec::new();
    push_all(&mut v, line);
    v.push('\n');
    v
}

/// Extracts the brace-delimited type bodies declared with one of `keywords`.
pub fn extract_brace_type_spans(content: &[char], keywords: &[&str]) -> (r: Vec<TypeSpan>)
    ensures
        span_views(r@) == type_spans(content@, kw_views(keywords@)),
{
    let ghost kws = kw_views(keywords@);
    let ls = lines_of(content);
    let ghost lv = seqs_view(ls@);
    let mut spans: Vec<TypeSpan> = Vec::new();
    let mut current: Option<TypeSpan> = None;
    let mut depth: usize = 0;
    let mut entered: bool = false;
    let mut i: usize = 0;
    while i < ls.len()
        invariant
            i <= ls@.len(),
            lv == seqs_view(ls@),
            kws == kw_views(keywords@),
            ({
                let st = scan_lines(lv.take(i as int), kws);
                &&& span_views(spans@) == st.spans
                &&& depth == st.depth
                &&& entered == st.entered
                &&& match current {
                    Some(c) => st.current == Some(c@),
                    None => st.current is None,
                }
            }),
        decreases ls.len() - i,
    {
        let line = ls[i].as_slice();
        let ghost st0 = scan_lines(lv.take(i as int), kws);
        proof {
            let t = lv.take(i + 1);
            assert(t.drop_last() =~= lv.take(i as int));
            assert(t.last() == line@);
        }
        let opens = count_char(line, '{');
        let closes = count_char(line, '}');
        let ghost s0 = spans@;
        match current {
            Some(mut span) => {
                let ghost c0 = span@;
                push_all(&mut span.body, line);
                span.body.push('\n');
                assert(span.body@ =~= c0.body + line@ + seq!['\n']);
                assert(span@ == SpanView { body: c0.body + line@ + seq!['\n'], ..c0 });
                if !entered && opens > 0 {
                    entered = true;
                }
                depth = depth.saturating_add(opens).saturating_sub(closes);
                if entered && depth == 0 {
                    spans.push(span);
                    assert(span_views(spans@) =~= span_views(s0).push(spans@.last()@));
                    current = None;
                    entered = false;
                } else {
                    current = Some(span);
                }
            },
            None => {
                let stripped = trim_ws(line);
                if stripped.len() > 0 {
                    match detect_name(stripped.as_slice(), keywords) {
                        None => {},
                        Some(name) => {
                            let span = TypeSpan {
                                name,
                                body: line_with_newline(line),
                                header: crate::graph::slice_from(line, 0),
                            };
                            assert(line@.skip(0) =~= line@);
                            assert(span@ == SpanView { name: name@, body: line@ + seq!['\n'], header: line@ });
                            if opens == 0 {
                                current = Some(span);
                                depth = 0;
                                entered = false;
                            } else {
                                depth = opens.saturating_sub(closes);
                                if depth == 0 {
                                    spans.push(span);
                                    assert(span_views(spans@) =~= span_views(s0).push(spans@.last()@));
                                } else {
                                    current = Some(span);
                                    entered = true;
                                }
                            }
                        },
                    }
                }
            },
        }
        proof {
            let st1 = scan_line(st0, line@, kws);
            assert(scan_lines(lv.take(i + 1), kws) == st1);
            assert(span_views(spans@) == st1.spans);
            assert(depth == st1.depth);
            assert(entered == st1.entered);
            assert(match current {
                Some(c) => st1.current == Some(c@),
                None => st1.current is None,
            });
        }
        i += 1;
    }
    assert(lv.take(ls@.len() as int) =~= lv);
    match current {
        Some(span) => {
            let ghost s0 = spans@;
            spans.push(span);
            assert(span_views(spans@) =~= span_views(s0).push(spans@.last()@));
        },
        None => {},
    }
    spans
}


/// The languages whose member declarations `parse_member` understands.
#[derive(Clone, Copy, Debug, PartialEq, Eq, Structural)]
pub enum BraceLanguage {
    Typescript,
    Java,
    Kotlin,
    Csharp,
    Rust,
    Go,
    Cpp,
    Swift,
    Php,
    Scala,
    Dart,
}

/// Not an identifier character: the characters trimmed from a method name.
pub open spec fn not_ident(c: char) -> bool {
    !is_ident_char(c)
}

/// The leading identifier characters of `s`.
pub open spec fn ident_prefix(s: Seq<char>) -> Seq<char> {
    s.take(first_index(s, |c: char| not_ident(c)))
}

/// `s` with the modifier words of field declarations in script-like languages stripped, in order.
pub open spec fn strip_script_modifiers(s: Seq<char>) -> Seq<char> {
    let a = trim_start_lit(s, "public "@);
    let b = trim_start_lit(a, "private "@);
    let c = trim_start_lit(b, "protected "@);
    let d = trim_start_lit(c, "readonly "@);
    let e = trim_start_lit(d, "static "@);
    let f = trim_start_lit(e, "override "@);
    let g = trim_start_lit(f, "val "@);
    let h = trim_start_lit(g, "var "@);
    let i = trim_start_lit(h, "let "@);
    let j = trim_start_lit(i, "const "@);
    trim_start_lit(j, "final "@)
}

/// `s` with the visibility and `static` words of PHP fields stripped, in order.
pub open spec fn strip_php_modifiers(s: Seq<char>) -> Seq<char> {
    trim_start_lit(trim_start_lit(trim_start_lit(trim_start_lit(s, "public "@), "private "@), "protected "@), "static "@)
}

/// The position of the first word starting with `$`, or the number of words.
pub open spec fn dollar_index(ws: Seq<Seq<char>>) -> int
    decreases ws.len(),
{
    if ws.len() == 0 {
        0
    } else if has_prefix(ws[0], "$"@) {
        0
    } else {
        1 + dollar_index(ws.skip(1))
    }
}

/// The field name a declaration line gives in a language, before it is cut
/// to its leading identifier characters; none when the line has no candidate.
pub open spec fn field_candidate(line: Seq<char>, lang: BraceLanguage) -> Option<Seq<char>> {
    match lang {
        BraceLanguage::Rust => {
            if !line.contains(':') {
                None
            } else {
                let ws = words(first_piece(line, in_set(":"@)));
                if ws.len() > 0 {
                    Some(ws.last())
                } else {
                    None
                }
            }
        },
        BraceLanguage::Go => {
            let ws = words(line);
            if ws.len() > 0 {
                Some(ws[0])
            } else {
                None
            }
        },
        BraceLanguage::Java | BraceLanguage::Csharp | BraceLanguage::Cpp => {
            let ws = words(trim(first_piece(line, in_set("="@))));
            if ws.len() > 0 {
                Some(trim_by(ws.last(), in_set("*&"@)))
            } else {
                None
            }
        },
        BraceLanguage::Php => {
            let ws = words(strip_php_modifiers(line));
            let k = dollar_index(ws);
            if k < ws.len() {
                Some(trim_start_by(ws[k], in_set("$"@)))
            } else {
                Some(Seq::empty())
            }
        },
        _ => Some(trim(first_piece(strip_script_modifiers(line), in_set(": ="@)))),
    }
}

/// The member a trimmed body line declares: a method when a `(` comes before
/// any `=`, named by the last word before the `(`; otherwise a field named
/// per the language; none when no name results.
pub open spec fn member_of(trimmed: Seq<char>, lang: BraceLanguage) -> Option<MemberView> {
    let line = trim_end_by(trimmed, in_set(";,"@));
    let paren = first_index(line, in_set("("@));
    let assign = first_index(line, in_set("="@));
    let is_method = paren < line.len() && (assign == line.len() || paren < assign);
    if is_method {
        let ws = words(line.take(paren));
        if ws.len() == 0 {
            None
        } else {
            let cleaned = trim_by(trim_start_by(ws.last(), in_set("*&"@)), |c: char| not_ident(c));
            if cleaned.len() == 0 || (lang == BraceLanguage::Rust && !contains_str(line, "fn "@)) {
                None
            } else {
                Some(MemberView { name: cleaned, kind: MemberKind::Method })
            }
        }
    } else {
        match field_candidate(line, lang) {
            None => None,
            Some(name) => {
                let cleaned = ident_prefix(name);
                if cleaned.len() == 0 {
                    None
                } else {
                    Some(MemberView { name: cleaned, kind: MemberKind::Field })
                }
            },
        }
    }
}

fn trim_non_ident(s: &[char]) -> (r: Vec<char>)
    ensures
        r@ == trim_by(s@, |c: char| not_ident(c)),
{
    let mut i: usize = 0;
    while i < s.len() && !is_ident_continue(s[i])
        invariant
            i <= s@.len(),
            forall|j: int| 0 <= j < i ==> not_ident(#[trigger] s@[j]),
        decreases s.len() - i,
    {
        i += 1;
    }
    proof {
        crate::strs::lemma_trim_start_skip(s@, |c: char| not_ident(c), i as int);
    }
    let a = crate::graph::slice_from(s, i);
    let mut j: usize = a.len();
    while j > 0 && !is_ident_continue(a[j - 1])
        invariant
            j <= a@.len(),
            forall|k: int| j <= k < a@.len() ==> not_ident(#[trigger] a@[k]),
        decreases j,
    {
        j -= 1;
    }
    proof {
        assert(trim_start_by(s@.skip(i as int), |c: char| not_ident(c)) == s@.skip(i as int));
        crate::strs::lemma_trim_end_take(a@, |c: char| not_ident(c), j as int);
        if j > 0 {
            assert(a@.take(j as int).last() == a@[j - 1]);
        }
    }
    take_chars(a.as_slice(), j)
}

fn ident_prefix_of(s: &[char]) -> (r: Vec<char>)
    ensures
        r@ == ident_prefix(s@),
{
    let mut i: usize = 0;
    while i < s.len() && is_ident_continue(s[i])
        invariant
            i <= s@.len(),
            forall|j: int| 0 <= j < i ==> !not_ident(#[trigger] s@[j]),
        decreases s.len() - i,
    {
        i += 1;
    }
    proof {
        crate::strs::lemma_first_index(s@, |c: char| not_ident(c), i as int);
    }
    take_chars(s, i)
}

fn strip_script(s: &[char]) -> (r: Vec<char>)
    ensures
        r@ == strip_script_modifiers(s@),
{
    let a = trim_start_str(s, "public ");
    let b = trim_start_str(a.as_slice(), "private ");
    let c = trim_start_str(b.as_slice(), "protected ");
    let d = trim_start_str(c.as_slice(), "readonly ");
    let e = trim_start_str(d.as_slice(), "static ");
    let f = trim_start_str(e.as_slice(), "override ");
    let g = trim_start_str(f.as_slice(), "val ");
    let h = trim_start_str(g.as_slice(), "var ");
    let i = trim_start_str(h.as_slice(), "let ");
    let j = trim_start_str(i.as_slice(), "const ");
    trim_start_str(j.as_slice(), "final ")
}

fn strip_php(s: &[char]) -> (r: Vec<char>)
    ensures
        r@ == strip_php_modifiers(s@),
{
    let a = trim_start_str(s, "public ");
    let b = trim_start_str(a.as_slice(), "private ");
    let c = trim_start_str(b.as_slice(), "protected ");
    trim_start_str(c.as_slice(), "static ")
}

proof fn lemma_dollar_index(ws: Seq<Seq<char>>, i: int)
    requires
        0 <= i <= ws.len(),
        forall|j: int| 0 <= j < i ==> !has_prefix(#[trigger] ws[j], "$"@),
        i == ws.len() || has_prefix(ws[i], "$"@),
    ensures
        dollar_index(ws) == i,
    decreases i,
{
    if i > 0 {
        assert forall|j: int| 0 <= j < i - 1 implies !has_prefix(#[trigger] ws.skip(1)[j], "$"@) by {
            assert(ws.skip(1)[j] == ws[j + 1]);
        }
        if i < ws.len() {
            assert(ws.skip(1)[i - 1] == ws[i]);
        }
        lemma_dollar_index(ws.skip(1), i - 1);
    }
}

fn field_candidate_of(line: &[char], lang: BraceLanguage) -> (r: Option<Vec<char>>)
    ensures
        match r {
            Some(v) => field_candidate(line@, lang) == Some(v@),
            None => field_candidate(line@, lang) is None,
        },
{
    match lang {
        BraceLanguage::Rust => {
            if !crate::strs::has_char(line, ':') {
                return None;
            }
            let colon = chars_of(":");
            let head = first_piece_set(line, colon.as_slice());
            let ws = split_whitespace(head.as_slice());
            if ws.len() > 0 {
                assert(seqs_view(ws@).last() == ws@[ws@.len() - 1]@);
                Some(crate::graph::slice_from(ws[ws.len() - 1].as_slice(), 0))
            } else {
                None
            }
        },
        BraceLanguage::Go => {
            let ws = split_whitespace(line);
            if ws.len() > 0 {
                assert(seqs_view(ws@)[0] == ws@[0]@);
                Some(crate::graph::slice_from(ws[0].as_slice(), 0))
            } else {
                None
            }
        },
        BraceLanguage::Java | BraceLanguage::Csharp | BraceLanguage::Cpp => {
            let eq = chars_of("=");
            let head = first_piece_set(line, eq.as_slice());
            let head = trim_ws(head.as_slice());
            let ws = split_whitespace(head.as_slice());
            if ws.len() > 0 {
                let set = chars_of("*&");
                assert(seqs_view(ws@).last() == ws@[ws@.len() - 1]@);
                Some(trim_set(ws[ws.len() - 1].as_slice(), set.as_slice()))
            } else {
                None
            }
        },
        BraceLanguage::Php => {
            let rest = strip_php(line);
            let ws = split_whitespace(rest.as_slice());
            let ghost wv = seqs_view(ws@);
            let dollar = chars_of("$");
            let mut k: usize = 0;
            while k < ws.len() && !starts_with(ws[k].as_slice(), dollar.as_slice())
                invariant
                    k <= ws@.len(),
                    wv == seqs_view(ws@),
                    dollar@ == "$"@,
                    forall|j: int| 0 <= j < k ==> !has_prefix(#[trigger] wv[j], "$"@),
                decreases ws.len() - k,
            {
                assert(wv[k as int] == ws@[k as int]@);
                k += 1;
            }
            proof {
                if k < ws@.len() {
                    assert(wv[k as int] == ws@[k as int]@);
                }
                lemma_dollar_index(wv, k as int);
            }
            if k < ws.len() {
                Some(trim_start_set(ws[k].as_slice(), dollar.as_slice()))
            } else {
                Some(Vec::new())
            }
        },
        _ => {
            let rest = strip_script(line);
            let stops = chars_of(": =");
            let head = first_piece_set(rest.as_slice(), stops.as_slice());
            Some(trim_ws(head.as_slice()))
        },
    }
}

/// The member declared by a trimmed body line, if any.
pub fn parse_member(trimmed: &[char], language: BraceLanguage) -> (r: Option<Member>)
    ensures
        match r {
            Some(m) => member_of(trimmed@, language) == Some(m@),
            None => member_of(trimmed@, language) is None,
        },
{
    let ends = chars_of(";,");
    let line = trim_end_set(trimmed, ends.as_slice());
    let open = chars_of("(");
    let eq = chars_of("=");
    let paren = find_set(line.as_slice(), open.as_slice());
    let assign = find_set(line.as_slice(), eq.as_slice());
    let is_method = paren < line.len() && (assign == line.len() || paren < assign);
    if is_method {
        let before = take_chars(line.as_slice(), paren);
        let ws = split_whitespace(before.as_slice());
        if ws.len() == 0 {
            return None;
        }
        assert(seqs_view(ws@).last() == ws@[ws@.len() - 1]@);
        let stars = chars_of("*&");
        let name = trim_start_set(ws[ws.len() - 1].as_slice(), stars.as_slice());
        let cleaned = trim_non_ident(name.as_slice());
        if cleaned.len() == 0 {
            return None;
        }
        if language == BraceLanguage::Rust && !contains_lit(line.as_slice(), "fn ") {
            return None;
        }
        Some(Member { name: string_of(cleaned.as_slice()), kind: MemberKind::Method })
    } else {
        match field_candidate_of(line.as_slice(), language) {
            None => None,
            Some(name) => {
                let cleaned = ident_prefix_of(name.as_slice());
                if cleaned.len() == 0 {
                    None
                } else {
                    Some(Member { name: string_of(cleaned.as_slice()), kind: MemberKind::Field })
                }
            },
        }
    }
}


/// Whether a trimmed body line is skipped: blank, a comment, a brace, an
/// annotation or directive, or a nested type declaration.
pub open spec fn skipped_line(t: Seq<char>) -> bool {
    t.len() == 0 || has_prefix(t, "//"@) || has_prefix(t, "/*"@) || has_prefix(t, "*"@) || has_prefix(t, "}"@)
        || has_prefix(t, "{"@) || has_prefix(t, "@"@) || has_prefix(t, "#"@) || has_prefix(t, "class "@) || has_prefix(
        t,
        "interface "@,
    ) || has_prefix(t, "struct "@) || has_prefix(t, "enum "@)
}

/// The members declared by the given body lines, in order, repeats included.
pub open spec fn line_members(ls: Seq<Seq<char>>, lang: BraceLanguage) -> Seq<MemberView>
    decreases ls.len(),
{
    if ls.len() == 0 {
        Seq::empty()
    } else {
        let rest = line_members(ls.drop_last(), lang);
        let t = trim(ls.last());
        if skipped_line(t) {
            rest
        } else {
            match member_of(t, lang) {
                Some(m) => rest.push(m),
                None => rest,
            }
        }
    }
}

/// The members with later repeats of a name and kind dropped.
pub open spec fn first_members(ms: Seq<MemberView>) -> Seq<MemberView>
    decreases ms.len(),
{
    if ms.len() == 0 {
        Seq::empty()
    } else {
        let r = first_members(ms.drop_last());
        if has_member_v(r, ms.last().name, ms.last().kind) {
            r
        } else {
            r.push(ms.last())
        }
    }
}

/// The members of a type body: those declared on the lines after the
/// declaration line, each name and kind once, in order of first appearance.
pub open spec fn body_members(body: Seq<char>, lang: BraceLanguage) -> Seq<MemberView> {
    let ls = lines(body);
    first_members(line_members(if ls.len() > 0 {
        ls.skip(1)
    } else {
        ls
    }, lang))
}

fn is_skipped_line(t: &[char]) -> (r: bool)
    ensures
        r == skipped_line(t@),
{
    t.len() == 0 || starts_with(t, chars_of("//").as_slice()) || starts_with(t, chars_of("/*").as_slice()) || starts_with(
        t,
        chars_of("*").as_slice(),
    ) || starts_with(t, chars_of("}").as_slice()) || starts_with(t, chars_of("{").as_slice()) || starts_with(
        t,
        chars_of("@").as_slice(),
    ) || starts_with(t, chars_of("#").as_slice()) || starts_with(t, chars_of("class ").as_slice()) || starts_with(
        t,
        chars_of("interface ").as_slice(),
    ) || starts_with(t, chars_of("struct ").as_slice()) || starts_with(t, chars_of("enum ").as_slice())
}

fn has_member_exec(list: &Vec<Member>, m: &Member) -> (r: bool)
    ensures
        r == has_member_v(member_views(list@), m@.name, m@.kind),
{
    let ghost lv = member_views(list@);
    let name = chars_of(m.name.as_str());
    let mut i: usize = 0;
    while i < list.len()
        invariant
            i <= list@.len(),
            lv == member_views(list@),
            name@ == m.name@,
            forall|j: int| 0 <= j < i ==> !(#[trigger] lv[j].name == m@.name && lv[j].kind == m@.kind),
        decreases list.len() - i,
    {
        assert(lv[i as int] == list@[i as int]@);
        if list[i].kind == m.kind {
            let n = chars_of(list[i].name.as_str());
            if chars_equal(n.as_slice(), name.as_slice()) {
                return true;
            }
        }
        i += 1;
    }
    false
}

/// Extracts the members declared in a type body.
pub fn extract_curly_members(body: &[char], language: BraceLanguage) -> (r: Vec<Member>)
    ensures
        member_views(r@) == body_members(body@, language),
{
    let ls = lines_of(body);
    let ghost lv = if ls@.len() > 0 {
        seqs_view(ls@).skip(1)
    } else {
        seqs_view(ls@)
    };
    let mut found: Vec<Member> = Vec::new();
    if ls.len() > 1 {
        let mut i: usize = 1;
        while i < ls.len()
            invariant
                1 <= i <= ls@.len(),
                lv == seqs_view(ls@).skip(1),
                ls@.len() > 1,
                member_views(found@) == line_members(lv.take(i - 1), language),
            decreases ls.len() - i,
        {
            let t = trim_ws(ls[i].as_slice());
            let ghost before = member_views(found@);
            proof {
                let tt = lv.take(i as int);
                assert(tt.drop_last() =~= lv.take(i - 1));
                assert(tt.last() == ls@[i as int]@);
            }
            if !is_skipped_line(t.as_slice()) {
                match parse_member(t.as_slice(), language) {
                    Some(m) => {
                        let ghost mv = m@;
                        found.push(m);
                        assert(member_views(found@) =~= before.push(mv));
                    },
                    None => {},
                }
            }
            i += 1;
        }
        assert(lv.take(ls@.len() - 1) =~= lv);
    } else {
        assert(lv =~= Seq::<Seq<char>>::empty());
        assert(member_views(found@) =~= line_members(lv, language));
    }
    let ghost all = member_views(found@);
    let mut out: Vec<Member> = Vec::new();
    let mut k: usize = 0;
    while k < found.len()
        invariant
            k <= found@.len(),
            all == member_views(found@),
            member_views(out@) == first_members(all.take(k as int)),
        decreases found.len() - k,
    {
        let ghost before = member_views(out@);
        proof {
            let tt = all.take(k + 1);
            assert(tt.drop_last() =~= all.take(k as int));
            assert(tt.last() == found@[k as int]@);
        }
        if !has_member_exec(&out, &found[k]) {
            let m = found[k].duplicate();
            out.push(m);
            assert(member_views(out@) =~= before.push(found@[k as int]@));
        }
        k += 1;
    }
    assert(all.take(found@.len() as int) =~= all);
    out
}

} // verus!
