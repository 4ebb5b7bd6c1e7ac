//! Request handling shared by the command-line workbench server and the
//! desktop UI server: target splitting, percent decoding, query parameters.
use crate::graph::{slice_from, Graph};
use crate::languages::{language_row, language_table, supported_languages};
use crate::model::{LanguageSupport, RuleDefinition, RuleView, Violation, ViolationView};
use crate::render::{decimal, graph_json, json_escape, layer_json, push_decimal, push_json_escaped};
use crate::rules::{rule_views, violation_views};
use crate::strs::{first_index, in_set, split_on, find_set, seqs_view};
use crate::recognize::split_char;
use crate::svg::svg_document;
use crate::text::{chars_of, push_all, push_str, string_of};
use vstd::prelude::*;
use vstd::utf8::{decode_utf8, encode_utf8, valid_utf8};

verus! {

broadcast use vstd::string::group_string_axioms;

/// The two servers differ in how strictly they read percent escapes and in
/// the words of their messages.
#[derive(Clone, Copy, Debug, PartialEq, Eq, Structural)]
pub enum Dialect {
    /// The `apex ui` server of the command line: a `%` without two following
    /// bytes is an error.
    Cli,
    /// The desktop UI server: such a `%` stands for itself.
    Ui,
}

/// The value of a hexadecimal digit (`char::to_digit(16)`).
pub open spec fn hex_val(c: char) -> Option<nat> {
    if '0' <= c && c <= '9' {
        Some((c as nat - 48) as nat)
    } else if 'a' <= c && c <= 'f' {
        Some((c as nat - 87) as nat)
    } else if 'A' <= c && c <= 'F' {
        Some((c as nat - 55) as nat)
    } else {
        None
    }
}

/// The value of a run of hexadecimal digits, if they all are digits.
pub open spec fn hex_digits_value(d: Seq<char>) -> Option<nat>
    decreases d.len(),
{
    if d.len() == 0 {
        Some(0)
    } else {
        match (hex_digits_value(d.drop_last()), hex_val(d.last())) {
            (Some(v), Some(x)) => Some(v * 16 + x),
            _ => None,
        }
    }
}

/// What `u8::from_str_radix(s, 16)` gives: an optional `+`, then at least one
/// hexadecimal digit, with a value that fits a byte.
pub open spec fn radix16_u8(s: Seq<char>) -> Option<u8> {
    if s.len() == 0 || s == seq!['+'] || s == seq!['-'] {
        None
    } else {
        let d = if s[0] == '+' { s.skip(1) } else { s };
        match hex_digits_value(d) {
            Some(v) => if v <= 255 { Some(v as u8) } else { None },
            None => None,
        }
    }
}

/// The value of a hexadecimal digit.
fn hex_digit_value(c: char) -> (r: Option<u32>)
    ensures
        match r {
            Some(x) => hex_val(c) == Some(x as nat) && x < 16,
            None => hex_val(c) is None,
        },
{
    if '0' <= c && c <= '9' {
        Some(c as u32 - 48)
    } else if 'a' <= c && c <= 'f' {
        Some(c as u32 - 87)
    } else if 'A' <= c && c <= 'F' {
        Some(c as u32 - 55)
    } else {
        None
    }
}

/// Reads `s` as `u8::from_str_radix(s, 16)` does.
pub fn radix16_value(s: &[char]) -> (r: Option<u8>)
    ensures
        r == radix16_u8(s@),
{
    if s.len() == 0 {
        return None;
    }
    if s.len() == 1 && (s[0] == '+' || s[0] == '-') {
        assert(s@ == seq![s[0]]);
        return None;
    }
    assert(s@ != seq!['+'] && s@ != seq!['-']) by {
        if s@.len() == 1 {
            assert(s@ == seq!['+'] ==> s@[0] == '+');
            assert(s@ == seq!['-'] ==> s@[0] == '-');
        }
    }
    let start: usize = if s[0] == '+' { 1 } else { 0 };
    let ghost d = if s@[0] == '+' { s@.skip(1) } else { s@ };
    assert(d =~= s@.skip(start as int));
    let mut v: u32 = 0;
    let mut k: usize = start;
    assert(d.take(0) =~= Seq::<char>::empty());
    while k < s.len()
        invariant
            start <= k <= s@.len(),
            d =~= s@.skip(start as int),
            s@.len() > 0,
            s@ != seq!['+'],
            s@ != seq!['-'],
            d == (if s@[0] == '+' { s@.skip(1) } else { s@ }),
            v <= 256,
            match hex_digits_value(d.take(k - start)) {
                Some(w) => v == (if w < 256 { w } else { 256 }),
                None => false,
            },
        decreases s.len() - k,
    {
        let c = s[k];
        assert(d.take(k + 1 - start).drop_last() =~= d.take(k - start));
        assert(d.take(k + 1 - start).last() == c);
        match hex_digit_value(c) {
            None => {
                proof {
                    lemma_hex_none_extends(d, (k + 1 - start) as int);
                }
                return None;
            },
            Some(x) => {
                let nv = v * 16 + x;
                v = if nv < 256 { nv } else { 256 };
            },
        }
        k += 1;
    }
    assert(d.take(s@.len() - start) =~= d);
    if v < 256 {
        Some(v as u8)
    } else {
        None
    }
}

proof fn lemma_hex_none_extends(d: Seq<char>, n: int)
    requires
        0 < n <= d.len(),
        hex_digits_value(d.take(n)) is None,
    ensures
        hex_digits_value(d) is None,
    decreases d.len() - n,
{
    if n < d.len() {
        assert(d.take(n + 1).drop_last() =~= d.take(n));
        lemma_hex_none_extends(d, n + 1);
    } else {
        assert(d.take(n) =~= d);
    }
}

/// `std::str::from_utf8`, made owned. Claimed, as its documentation says:
/// text exactly when the bytes are valid UTF-8, and then the characters they encode.
#[verifier::external_body]
fn utf8_text(bytes: &[u8]) -> (r: Option<String>)
    ensures
        r is Some <==> valid_utf8(bytes@),
        r matches Some(s) ==> s@ == decode_utf8(bytes@),
{
    match std::str::from_utf8(bytes) {
        Ok(s) => Some(s.to_string()),
        Err(_) => None,
    }
}

/// The byte a `%` escape with these two following bytes stands for, or the
/// message it is refused with.
pub open spec fn escape_byte(b1: u8, b2: u8, d: Dialect) -> Result<u8, Seq<char>> {
    let pair = seq![b1, b2];
    if !valid_utf8(pair) {
        Err(if d == Dialect::Cli { "invalid percent escape"@ } else { "invalid escape"@ })
    } else {
        let hex = decode_utf8(pair);
        match radix16_u8(hex) {
            Some(x) => Ok(x),
            None => Err(
                if d == Dialect::Cli {
                    "invalid percent escape '%"@ + hex + "'"@
                } else {
                    "bad hex '%"@ + hex + "'"@
                },
            ),
        }
    }
}

/// `x` before the bytes of `r`, or the error of `r`.
pub open spec fn prepend(x: Seq<u8>, r: Result<Seq<u8>, Seq<char>>) -> Result<Seq<u8>, Seq<char>> {
    match r {
        Ok(b) => Ok(x + b),
        Err(e) => Err(e),
    }
}

/// The bytes that percent decoding makes of `b`: `%` and two more bytes is an
/// escape, `+` is a space, any other byte stands for itself; a `%` near the
/// end is an error on the command line and itself in the UI.
pub open spec fn pct_bytes(b: Seq<u8>, d: Dialect) -> Result<Seq<u8>, Seq<char>>
    decreases b.len(),
{
    if b.len() == 0 {
        Ok(Seq::empty())
    } else if b[0] == 37 && b.len() >= 3 {
        match escape_byte(b[1], b[2], d) {
            Err(e) => Err(e),
            Ok(x) => prepend(seq![x], pct_bytes(b.skip(3), d)),
        }
    } else if b[0] == 37 && d == Dialect::Cli {
        Err("incomplete percent escape"@)
    } else {
        prepend(seq![if b[0] == 43 { 32u8 } else { b[0] }], pct_bytes(b.skip(1), d))
    }
}

/// The text percent decoding makes of `value`, or the message it is refused with.
pub open spec fn percent_decoded(value: Seq<char>, d: Dialect) -> Result<Seq<char>, Seq<char>> {
    match pct_bytes(encode_utf8(value), d) {
        Err(e) => Err(e),
        Ok(b) => if valid_utf8(b) {
            Ok(decode_utf8(b))
        } else {
            Err(if d == Dialect::Cli { "decoded query is not valid UTF-8"@ } else { "not valid UTF-8"@ })
        },
    }
}

/// A result read as plain values.
pub open spec fn result_view(r: Result<String, String>) -> Result<Seq<char>, Seq<char>> {
    match r {
        Ok(s) => Ok(s@),
        Err(e) => Err(e@),
    }
}

fn escape_value(b1: u8, b2: u8, d: Dialect) -> (r: Result<u8, String>)
    ensures
        match r {
            Ok(x) => escape_byte(b1, b2, d) == Ok::<u8, Seq<char>>(x),
            Err(e) => escape_byte(b1, b2, d) == Err::<u8, Seq<char>>(e@),
        },
{
    let pair: Vec<u8> = vec![b1, b2];
    assert(pair@ =~= seq![b1, b2]);
    match utf8_text(pair.as_slice()) {
        None => Err(crate::text::owned(
            match d {
                Dialect::Cli => "invalid percent escape",
                Dialect::Ui => "invalid escape",
            },
        )),
        Some(hex) => {
            let hv = chars_of(hex.as_str());
            match radix16_value(hv.as_slice()) {
                Some(x) => Ok(x),
                None => {
                    let mut out: Vec<char> = Vec::new();
                    match d {
                        Dialect::Cli => push_str(&mut out, "invalid percent escape '%"),
                        Dialect::Ui => push_str(&mut out, "bad hex '%"),
                    }
                    push_all(&mut out, hv.as_slice());
                    push_str(&mut out, "'");
                    Err(string_of(out.as_slice()))
                },
            }
        },
    }
}

/// Decodes `%XX` escapes and `+` in `value` in the manner of `d`.
pub fn percent_decode_with(value: &str, d: Dialect) -> (r: Result<String, String>)
    ensures
        result_view(r) == percent_decoded(value@, d),
{
    let bytes = value.as_bytes();
    let ghost b = bytes@;
    let mut out: Vec<u8> = Vec::new();
    let mut i: usize = 0;
    assert(b.skip(0) =~= b);
    while i < bytes.len()
        invariant
            i <= b.len(),
            b == bytes@,
            b == encode_utf8(value@),
            pct_bytes(b, d) == prepend(out@, pct_bytes(b.skip(i as int), d)),
        decreases bytes.len() - i,
    {
        let c = bytes[i];
        let ghost rest = b.skip(i as int);
        assert(rest[0] == c);
        if c == 37 && bytes.len() - i >= 3 {
            let b1 = bytes[i + 1];
            let b2 = bytes[i + 2];
            assert(rest[1] == b1 && rest[2] == b2);
            assert(rest.skip(3) =~= b.skip(i + 3));
            match escape_value(b1, b2, d) {
                Err(e) => {
                    return Err(e);
                },
                Ok(x) => {
                    proof {
                        assert(out@.push(x) =~= out@ + seq![x]);
                        match pct_bytes(b.skip(i + 3), d) {
                            Ok(t) => assert(out@ + (seq![x] + t) =~= out@.push(x) + t),
                            Err(_) => {},
                        }
                    }
                    out.push(x);
                    i += 3;
                },
            }
        } else if c == 37 && d == Dialect::Cli {
            return Err(crate::text::owned("incomplete percent escape"));
        } else {
            let x: u8 = if c == 43 { 32 } else { c };
            assert(rest.skip(1) =~= b.skip(i + 1));
            proof {
                match pct_bytes(b.skip(i + 1), d) {
                    Ok(t) => assert(out@ + (seq![x] + t) =~= out@.push(x) + t),
                    Err(_) => {},
                }
            }
            out.push(x);
            i += 1;
        }
    }
    assert(b.skip(i as int) =~= Seq::<u8>::empty());
    assert(out@ + Seq::<u8>::empty() =~= out@);
    match utf8_text(out.as_slice()) {
        Some(s) => Ok(s),
        None => Err(crate::text::owned(
            match d {
                Dialect::Cli => "decoded query is not valid UTF-8",
                Dialect::Ui => "not valid UTF-8",
            },
        )),
    }
}

/// The path and the query of a request target, split at the first `?`.
pub open spec fn target_parts(t: Seq<char>) -> (Seq<char>, Seq<char>) {
    let i = first_index(t, in_set(seq!['?']));
    if i < t.len() {
        (t.take(i), t.skip(i + 1))
    } else {
        (t, Seq::empty())
    }
}

/// Splits a request target into its path and its query (empty when there is no `?`).
pub fn split_target(target: &str) -> (r: (String, String))
    ensures
        (r.0@, r.1@) == target_parts(target@),
{
    let t = chars_of(target);
    let q: Vec<char> = vec!['?'];
    assert(q@ =~= seq!['?']);
    let i = find_set(t.as_slice(), q.as_slice());
    if i < t.len() {
        let mut path: Vec<char> = Vec::new();
        let mut k: usize = 0;
        while k < i
            invariant
                k <= i < t@.len(),
                path@ == t@.take(k as int),
            decreases i - k,
        {
            path.push(t[k]);
            k += 1;
            assert(path@ =~= t@.take(k as int));
        }
        let query = slice_from(t.as_slice(), i + 1);
        (string_of(path.as_slice()), string_of(query.as_slice()))
    } else {
        (crate::text::owned(target), String::new())
    }
}

/// One `key=value` part of a query, both sides decoded; none when either
/// side does not decode.
pub open spec fn query_entry(part: Seq<char>, d: Dialect) -> Option<(Seq<char>, Seq<char>)> {
    let i = first_index(part, in_set(seq!['=']));
    let key = part.take(i);
    let value = if i < part.len() { part.skip(i + 1) } else { Seq::empty() };
    match (percent_decoded(key, d), percent_decoded(value, d)) {
        (Ok(k), Ok(v)) => Some((k, v)),
        _ => None,
    }
}

/// The decoded entries of the query parts, skipping empty parts and parts
/// that do not decode.
pub open spec fn query_entries(parts: Seq<Seq<char>>, d: Dialect) -> Seq<(Seq<char>, Seq<char>)>
    decreases parts.len(),
{
    if parts.len() == 0 {
        Seq::empty()
    } else {
        let rest = query_entries(parts.drop_last(), d);
        let p = parts.last();
        if p.len() == 0 {
            rest
        } else {
            match query_entry(p, d) {
                Some(e) => rest.push(e),
                None => rest,
            }
        }
    }
}

/// The parameters of a query string, in order.
pub open spec fn parsed_query(query: Seq<char>, d: Dialect) -> Seq<(Seq<char>, Seq<char>)> {
    query_entries(split_on(query, '&'), d)
}

/// Query parameters read as plain values.
pub open spec fn params_view(ps: Seq<(String, String)>) -> Seq<(Seq<char>, Seq<char>)> {
    ps.map_values(|p: (String, String)| (p.0@, p.1@))
}

fn decode_entry(part: &[char], d: Dialect) -> (r: Option<(String, String)>)
    ensures
        match r {
            Some(e) => query_entry(part@, d) == Some((e.0@, e.1@)),
            None => query_entry(part@, d) is None,
        },
{
    let eq: Vec<char> = vec!['='];
    assert(eq@ =~= seq!['=']);
    let i = find_set(part, eq.as_slice());
    let mut key: Vec<char> = Vec::new();
    let mut k: usize = 0;
    while k < i
        invariant
            k <= i <= part@.len(),
            key@ == part@.take(k as int),
        decreases i - k,
    {
        key.push(part[k]);
        k += 1;
        assert(key@ =~= part@.take(k as int));
    }
    let value = if i < part.len() {
        slice_from(part, i + 1)
    } else {
        Vec::new()
    };
    assert(value@ == (if i < part@.len() { part@.skip(i + 1) } else { Seq::<char>::empty() }));
    let ks = string_of(key.as_slice());
    let vs = string_of(value.as_slice());
    match percent_decode_with(ks.as_str(), d) {
        Ok(a) => match percent_decode_with(vs.as_str(), d) {
            Ok(b) => Some((a, b)),
            Err(_) => None,
        },
        Err(_) => None,
    }
}

/// The parameters of a query string in the manner of `d`: the `&`-separated
/// parts that are not empty, each split at its first `=` and decoded on both
/// sides; a part that does not decode is left out.
pub fn parse_query_with(query: &str, d: Dialect) -> (r: Vec<(String, String)>)
    ensures
        params_view(r@) == parsed_query(query@, d),
{
    let qv = chars_of(query);
    let parts = split_char(qv.as_slice(), '&');
    let ghost pv = seqs_view(parts@);
    let mut out: Vec<(String, String)> = Vec::new();
    let mut i: usize = 0;
    assert(pv.take(0) =~= Seq::<Seq<char>>::empty());
    while i < parts.len()
        invariant
            i <= parts@.len(),
            pv == seqs_view(parts@),
            pv == split_on(query@, '&'),
            params_view(out@) == query_entries(pv.take(i as int), d),
        decreases parts.len() - i,
    {
        assert(pv.take(i + 1).drop_last() =~= pv.take(i as int));
        assert(pv[i as int] == parts@[i as int]@);
        let part = &parts[i];
        if part.len() > 0 {
            match decode_entry(part.as_slice(), d) {
                Some(e) => {
                    let ghost ev = (e.0@, e.1@);
                    out.push(e);
                    assert(params_view(out@) =~= params_view(out@.drop_last()).push(ev));
                },
                None => {},
            }
        }
        i += 1;
    }
    assert(pv.take(pv.len() as int) =~= pv);
    out
}

/// The value of the first parameter with this key.
pub open spec fn param_value(ps: Seq<(Seq<char>, Seq<char>)>, key: Seq<char>) -> Option<Seq<char>>
    decreases ps.len(),
{
    if ps.len() == 0 {
        None
    } else if ps[0].0 == key {
        Some(ps[0].1)
    } else {
        param_value(ps.skip(1), key)
    }
}

/// The value of the first parameter with this key, if any.
pub fn find_param(params: &Vec<(String, String)>, key: &str) -> (r: Option<String>)
    ensures
        match r {
            Some(v) => param_value(params_view(params@), key@) == Some(v@),
            None => param_value(params_view(params@), key@) is None,
        },
{
    let ghost ps = params_view(params@);
    let kv = chars_of(key);
    let mut i: usize = 0;
    assert(ps.skip(0) =~= ps);
    while i < params.len()
        invariant
            i <= params@.len(),
            ps == params_view(params@),
            kv@ == key@,
            param_value(ps, key@) == param_value(ps.skip(i as int), key@),
        decreases params.len() - i,
    {
        let pk = chars_of(params[i].0.as_str());
        assert(ps.skip(i as int)[0] == ps[i as int]);
        if crate::text::chars_equal(pk.as_slice(), kv.as_slice()) {
            return Some(params[i].1.clone());
        }
        assert(ps.skip(i as int).skip(1) =~= ps.skip(i + 1));
        i += 1;
    }
    None
}

/// The diagram formats that can be exported or served.
pub open spec fn is_format_name(v: Seq<char>) -> bool {
    v == "svg"@ || v == "mermaid"@ || v == "html"@ || v == "json"@
}

/// Whether `value` names a diagram format.
pub fn is_format(value: &str) -> (r: bool)
    ensures
        r == is_format_name(value@),
{
    let v = chars_of(value);
    crate::text::eq_lit(v.as_slice(), "svg") || crate::text::eq_lit(v.as_slice(), "mermaid")
        || crate::text::eq_lit(v.as_slice(), "html") || crate::text::eq_lit(v.as_slice(), "json")
}

/// Decodes `%XX` escapes and `+` as the command-line UI server does: a `%`
/// without two following bytes is refused.
pub fn percent_decode(value: &str) -> (r: Result<String, String>)
    ensures
        result_view(r) == percent_decoded(value@, Dialect::Cli),
{
    percent_decode_with(value, Dialect::Cli)
}

/// The parameters of a query string as the command-line UI server reads them.
pub fn parse_query(query: &str) -> (r: Vec<(String, String)>)
    ensures
        params_view(r@) == parsed_query(query@, Dialect::Cli),
{
    parse_query_with(query, Dialect::Cli)
}

} // verus!
