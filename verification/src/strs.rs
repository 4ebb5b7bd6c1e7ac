//! Character-sequence operations with the meaning of the corresponding `str`
//! methods: trimming, prefix stripping, splitting, searching and line splitting.
use crate::text::{has_prefix, has_suffix, starts_with, ends_with};
use vstd::prelude::*;

verus! {

/// Unicode white space, as `char::is_whitespace` defines it.
pub open spec fn is_ws(c: char) -> bool {
    c == '\t' || c == '\n' || c == '\u{0B}' || c == '\u{0C}' || c == '\r' || c == ' ' || c == '\u{85}' || c == '\u{A0}'
        || c == '\u{1680}' || ('\u{2000}' <= c && c <= '\u{200A}') || c == '\u{2028}' || c == '\u{2029}' || c
        == '\u{202F}' || c == '\u{205F}' || c == '\u{3000}'
}

/// Whether `c` is white space.
pub fn is_whitespace(c: char) -> (r: bool)
    ensures
        r == is_ws(c),
{
    c == '\t' || c == '\n' || c == '\u{0B}' || c == '\u{0C}' || c == '\r' || c == ' ' || c == '\u{85}' || c == '\u{A0}'
        || c == '\u{1680}' || ('\u{2000}' <= c && c <= '\u{200A}') || c == '\u{2028}' || c == '\u{2029}' || c
        == '\u{202F}' || c == '\u{205F}' || c == '\u{3000}'
}

/// The predicate "is one of the characters of `set`".
pub open spec fn in_set(set: Seq<char>) -> spec_fn(char) -> bool {
    |c: char| set.contains(c)
}

/// `s` without its leading characters satisfying `p`.
pub open spec fn trim_start_by(s: Seq<char>, p: spec_fn(char) -> bool) -> Seq<char>
    decreases s.len(),
{
    if s.len() > 0 && p(s[0]) {
        trim_start_by(s.skip(1), p)
    } else {
        s
    }
}

/// `s` without its trailing characters satisfying `p`.
pub open spec fn trim_end_by(s: Seq<char>, p: spec_fn(char) -> bool) -> Seq<char>
    decreases s.len(),
{
    if s.len() > 0 && p(s.last()) {
        trim_end_by(s.drop_last(), p)
    } else {
        s
    }
}

/// `s` without its leading and trailing characters satisfying `p`.
pub open spec fn trim_by(s: Seq<char>, p: spec_fn(char) -> bool) -> Seq<char> {
    trim_end_by(trim_start_by(s, p), p)
}

/// `s` without leading and trailing white space (`str::trim`).
pub open spec fn trim(s: Seq<char>) -> Seq<char> {
    trim_by(s, |c: char| is_ws(c))
}

pub proof fn lemma_trim_start_skip(s: Seq<char>, p: spec_fn(char) -> bool, i: int)
    requires
        0 <= i <= s.len(),
        forall|j: int| 0 <= j < i ==> p(#[trigger] s[j]),
    ensures
        trim_start_by(s, p) == trim_start_by(s.skip(i), p),
    decreases i,
{
    if i > 0 {
        assert(s.skip(1).skip(i - 1) =~= s.skip(i));
        assert forall|j: int| 0 <= j < i - 1 implies p(#[trigger] s.skip(1)[j]) by {
            assert(s.skip(1)[j] == s[j + 1]);
        }
        lemma_trim_start_skip(s.skip(1), p, i - 1);
    } else {
        assert(s.skip(0) =~= s);
    }
}

pub proof fn lemma_trim_end_take(s: Seq<char>, p: spec_fn(char) -> bool, i: int)
    requires
        0 <= i <= s.len(),
        forall|j: int| i <= j < s.len() ==> p(#[trigger] s[j]),
    ensures
        trim_end_by(s, p) == trim_end_by(s.take(i), p),
    decreases s.len() - i,
{
    if i < s.len() {
        assert(s.drop_last().take(i) =~= s.take(i));
        assert forall|j: int| i <= j < s.drop_last().len() implies p(#[trigger] s.drop_last()[j]) by {
            assert(s.drop_last()[j] == s[j]);
        }
        lemma_trim_end_take(s.drop_last(), p, i);
    } else {
        assert(s.take(i) =~= s);
    }
}

/// Leading white space removed (`str::trim_start`).
pub fn trim_start_ws(s: &[char]) -> (r: Vec<char>)
    ensures
        r@ == trim_start_by(s@, |c: char| is_ws(c)),
{
    let mut i: usize = 0;
    while i < s.len() && is_whitespace(s[i])
        invariant
            i <= s@.len(),
            forall|j: int| 0 <= j < i ==> is_ws(#[trigger] s@[j]),
        decreases s.len() - i,
    {
        i += 1;
    }
    proof {
        lemma_trim_start_skip(s@, |c: char| is_ws(c), i as int);
    }
    let r = crate::graph::slice_from(s, i);
    assert(trim_start_by(s@.skip(i as int), |c: char| is_ws(c)) == s@.skip(i as int));
    r
}

/// The first `n` characters.
pub fn take_chars(s: &[char], n: usize) -> (r: Vec<char>)
    requires
        n <= s@.len(),
    ensures
        r@ == s@.take(n as int),
{
    let mut out: Vec<char> = Vec::new();
    let mut i: usize = 0;
    while i < n
        invariant
            i <= n,
            n <= s@.len(),
            out@ == s@.take(i as int),
        decreases n - i,
    {
        out.push(s[i]);
        assert(out@ =~= s@.take(i + 1));
        i += 1;
    }
    out
}

/// Trailing white space removed (`str::trim_end`).
pub fn trim_end_ws(s: &[char]) -> (r: Vec<char>)
    ensures
        r@ == trim_end_by(s@, |c: char| is_ws(c)),
{
    let mut i: usize = s.len();
    while i > 0 && is_whitespace(s[i - 1])
        invariant
            i <= s@.len(),
            forall|j: int| i <= j < s@.len() ==> is_ws(#[trigger] s@[j]),
        decreases i,
    {
        i -= 1;
    }
    proof {
        lemma_trim_end_take(s@, |c: char| is_ws(c), i as int);
        if i > 0 {
            assert(s@.take(i as int).last() == s@[i - 1]);
        }
    }
    take_chars(s, i)
}

/// Leading and trailing white space removed (`str::trim`).
pub fn trim_ws(s: &[char]) -> (r: Vec<char>)
    ensures
        r@ == trim(s@),
{
    let a = trim_start_ws(s);
    trim_end_ws(a.as_slice())
}

pub fn contains_char(set: &[char], c: char) -> (r: bool)
    ensures
        r == set@.contains(c),
{
    let mut i: usize = 0;
    while i < set.len()
        invariant
            i <= set@.len(),
            forall|j: int| 0 <= j < i ==> set@[j] != c,
        decreases set.len() - i,
    {
        if set[i] == c {
            return true;
        }
        i += 1;
    }
    false
}

/// Leading characters of `set` removed (`str::trim_start_matches` with a char set).
pub fn trim_start_set(s: &[char], set: &[char]) -> (r: Vec<char>)
    ensures
        r@ == trim_start_by(s@, in_set(set@)),
{
    let mut i: usize = 0;
    while i < s.len() && contains_char(set, s[i])
        invariant
            i <= s@.len(),
            forall|j: int| 0 <= j < i ==> in_set(set@)(#[trigger] s@[j]),
        decreases s.len() - i,
    {
        i += 1;
    }
    proof {
        lemma_trim_start_skip(s@, in_set(set@), i as int);
    }
    let r = crate::graph::slice_from(s, i);
    assert(trim_start_by(s@.skip(i as int), in_set(set@)) == s@.skip(i as int));
    r
}

/// Trailing characters of `set` removed (`str::trim_end_matches` with a char set).
pub fn trim_end_set(s: &[char], set: &[char]) -> (r: Vec<char>)
    ensures
        r@ == trim_end_by(s@, in_set(set@)),
{
    let mut i: usize = s.len();
    while i > 0 && contains_char(set, s[i - 1])
        invariant
            i <= s@.len(),
            forall|j: int| i <= j < s@.len() ==> in_set(set@)(#[trigger] s@[j]),
        decreases i,
    {
        i -= 1;
    }
    proof {
        lemma_trim_end_take(s@, in_set(set@), i as int);
        if i > 0 {
            assert(s@.take(i as int).last() == s@[i - 1]);
        }
    }
    take_chars(s, i)
}

/// Characters of `set` removed from both ends (`str::trim_matches` with a char set).
pub fn trim_set(s: &[char], set: &[char]) -> (r: Vec<char>)
    ensures
        r@ == trim_by(s@, in_set(set@)),
{
    let a = trim_start_set(s, set);
    trim_end_set(a.as_slice(), set)
}


/// `s` with every leading copy of a non-empty `p` removed (`str::trim_start_matches` with a string).
pub open spec fn trim_start_lit(s: Seq<char>, p: Seq<char>) -> Seq<char>
    decreases s.len(),
{
    if p.len() > 0 && has_prefix(s, p) {
        trim_start_lit(s.skip(p.len() as int), p)
    } else {
        s
    }
}

/// `s` with every trailing copy of a non-empty `p` removed (`str::trim_end_matches` with a string).
pub open spec fn trim_end_lit(s: Seq<char>, p: Seq<char>) -> Seq<char>
    decreases s.len(),
{
    if p.len() > 0 && has_suffix(s, p) {
        trim_end_lit(s.take(s.len() - p.len()), p)
    } else {
        s
    }
}

/// Leading copies of `p` removed.
pub fn trim_start_str(s: &[char], p: &str) -> (r: Vec<char>)
    ensures
        r@ == trim_start_lit(s@, p@),
    decreases s@.len(),
{
    let pv = crate::text::chars_of(p);
    if pv.len() > 0 && starts_with(s, pv.as_slice()) {
        let rest = crate::graph::slice_from(s, pv.len());
        trim_start_str(rest.as_slice(), p)
    } else {
        let r = crate::graph::slice_from(s, 0);
        assert(s@.skip(0) =~= s@);
        r
    }
}

/// Trailing copies of `p` removed.
pub fn trim_end_str(s: &[char], p: &str) -> (r: Vec<char>)
    ensures
        r@ == trim_end_lit(s@, p@),
    decreases s@.len(),
{
    let pv = crate::text::chars_of(p);
    if pv.len() > 0 && ends_with(s, pv.as_slice()) {
        let rest = take_chars(s, s.len() - pv.len());
        trim_end_str(rest.as_slice(), p)
    } else {
        let r = crate::graph::slice_from(s, 0);
        assert(s@.skip(0) =~= s@);
        r
    }
}

/// `s` after the prefix `p`, when it starts with it (`str::strip_prefix`).
pub open spec fn strip_prefix(s: Seq<char>, p: Seq<char>) -> Option<Seq<char>> {
    if has_prefix(s, p) {
        Some(s.skip(p.len() as int))
    } else {
        None
    }
}

/// The part after the prefix `p`, if `s` starts with it.
pub fn strip_prefix_str(s: &[char], p: &str) -> (r: Option<Vec<char>>)
    ensures
        match r {
            Some(v) => strip_prefix(s@, p@) == Some(v@),
            None => strip_prefix(s@, p@) is None,
        },
{
    let pv = crate::text::chars_of(p);
    if starts_with(s, pv.as_slice()) {
        Some(crate::graph::slice_from(s, pv.len()))
    } else {
        None
    }
}

/// The position of the first character satisfying `p`, or the length.
pub open spec fn first_index(s: Seq<char>, p: spec_fn(char) -> bool) -> int
    decreases s.len(),
{
    if s.len() == 0 {
        0
    } else if p(s[0]) {
        0
    } else {
        1 + first_index(s.skip(1), p)
    }
}

pub proof fn lemma_first_index(s: Seq<char>, p: spec_fn(char) -> bool, i: int)
    requires
        0 <= i <= s.len(),
        forall|j: int| 0 <= j < i ==> !p(#[trigger] s[j]),
        i == s.len() || p(s[i]),
    ensures
        first_index(s, p) == i,
    decreases i,
{
    if i > 0 {
        assert forall|j: int| 0 <= j < i - 1 implies !p(#[trigger] s.skip(1)[j]) by {
            assert(s.skip(1)[j] == s[j + 1]);
        }
        if i < s.len() {
            assert(s.skip(1)[i - 1] == s[i]);
        }
        lemma_first_index(s.skip(1), p, i - 1);
    }
}

/// The text before the first separator (`split(..).next()`).
pub open spec fn first_piece(s: Seq<char>, p: spec_fn(char) -> bool) -> Seq<char> {
    s.take(first_index(s, p))
}

/// The text between the first and second separators (`split(..).nth(1)`), if
/// there is a first separator.
pub open spec fn second_piece(s: Seq<char>, p: spec_fn(char) -> bool) -> Option<Seq<char>> {
    let i = first_index(s, p);
    if i < s.len() {
        Some(first_piece(s.skip(i + 1), p))
    } else {
        None
    }
}

/// The position of the first character of `set`, or the length.
pub fn find_set(s: &[char], set: &[char]) -> (r: usize)
    ensures
        r == first_index(s@, in_set(set@)),
        r <= s@.len(),
{
    let mut i: usize = 0;
    while i < s.len() && !contains_char(set, s[i])
        invariant
            i <= s@.len(),
            forall|j: int| 0 <= j < i ==> !in_set(set@)(#[trigger] s@[j]),
        decreases s.len() - i,
    {
        i += 1;
    }
    proof {
        lemma_first_index(s@, in_set(set@), i as int);
    }
    i
}

/// The text before the first character of `set`.
pub fn first_piece_set(s: &[char], set: &[char]) -> (r: Vec<char>)
    ensures
        r@ == first_piece(s@, in_set(set@)),
{
    let i = find_set(s, set);
    take_chars(s, i)
}

/// The text between the first and second characters of `set`, if any.
pub fn second_piece_set(s: &[char], set: &[char]) -> (r: Option<Vec<char>>)
    ensures
        match r {
            Some(v) => second_piece(s@, in_set(set@)) == Some(v@),
            None => second_piece(s@, in_set(set@)) is None,
        },
{
    let i = find_set(s, set);
    if i < s.len() {
        let rest = crate::graph::slice_from(s, i + 1);
        Some(first_piece_set(rest.as_slice(), set))
    } else {
        None
    }
}

/// The position just after the last character satisfying `p`, or zero.
pub open spec fn after_last(s: Seq<char>, p: spec_fn(char) -> bool) -> int
    decreases s.len(),
{
    if s.len() == 0 {
        0
    } else if p(s.last()) {
        s.len() as int
    } else {
        after_last(s.drop_last(), p)
    }
}

/// The text after the last separator (`rsplit(..).next()`).
pub open spec fn last_piece(s: Seq<char>, p: spec_fn(char) -> bool) -> Seq<char> {
    s.skip(after_last(s, p))
}

proof fn lemma_after_last(s: Seq<char>, p: spec_fn(char) -> bool, i: int)
    requires
        0 <= i <= s.len(),
        forall|j: int| i <= j < s.len() ==> !p(#[trigger] s[j]),
        i == 0 || p(s[i - 1]),
    ensures
        after_last(s, p) == i,
    decreases s.len() - i,
{
    if i < s.len() {
        assert forall|j: int| i <= j < s.drop_last().len() implies !p(#[trigger] s.drop_last()[j]) by {
            assert(s.drop_last()[j] == s[j]);
        }
        if i > 0 {
            assert(s.drop_last()[i - 1] == s[i - 1]);
        }
        lemma_after_last(s.drop_last(), p, i);
    }
}

/// The text after the last character of `set`.
pub fn last_piece_set(s: &[char], set: &[char]) -> (r: Vec<char>)
    ensures
        r@ == last_piece(s@, in_set(set@)),
{
    let mut i: usize = s.len();
    while i > 0 && !contains_char(set, s[i - 1])
        invariant
            i <= s@.len(),
            forall|j: int| i <= j < s@.len() ==> !in_set(set@)(#[trigger] s@[j]),
        decreases i,
    {
        i -= 1;
    }
    proof {
        lemma_after_last(s@, in_set(set@), i as int);
    }
    crate::graph::slice_from(s, i)
}


/// `t` occurs in `s` at position `i`.
pub open spec fn occurs_at(s: Seq<char>, t: Seq<char>, i: int) -> bool {
    0 <= i && i + t.len() <= s.len() && s.subrange(i, i + t.len()) == t
}

/// The first position at or after `i` where `t` occurs.
pub open spec fn find_from(s: Seq<char>, t: Seq<char>, i: int) -> Option<int>
    decreases s.len() + 1 - i,
{
    if i < 0 || i + t.len() > s.len() {
        None
    } else if occurs_at(s, t, i) {
        Some(i)
    } else {
        find_from(s, t, i + 1)
    }
}

/// The first position where `t` occurs (`str::find`).
pub open spec fn find_str(s: Seq<char>, t: Seq<char>) -> Option<int> {
    find_from(s, t, 0)
}

/// The last position at or before `i` where `t` occurs.
pub open spec fn rfind_to(s: Seq<char>, t: Seq<char>, i: int) -> Option<int>
    decreases i + 1,
{
    if i < 0 {
        None
    } else if occurs_at(s, t, i) {
        Some(i)
    } else {
        rfind_to(s, t, i - 1)
    }
}

/// The last position where `t` occurs (`str::rfind`).
pub open spec fn rfind_str(s: Seq<char>, t: Seq<char>) -> Option<int> {
    rfind_to(s, t, s.len() - t.len())
}

/// Whether `t` occurs in `s` (`str::contains`).
pub open spec fn contains_str(s: Seq<char>, t: Seq<char>) -> bool {
    find_str(s, t) is Some
}

/// Whether `t` occurs in `s` at `i`.
pub fn occurs_at_exec(s: &[char], t: &[char], i: usize) -> (r: bool)
    ensures
        r == occurs_at(s@, t@, i as int),
{
    if i > s.len() || t.len() > s.len() - i {
        return false;
    }
    let end = i + t.len();
    let mut idx: usize = i;
    while idx < end
        invariant
            end == i + t@.len(),
            end <= s@.len(),
            i <= idx <= end,
            forall|j: int| 0 <= j < idx - i ==> s@[i + j] == t@[j],
        decreases end - idx,
    {
        if s[idx] != t[idx - i] {
            assert(s@.subrange(i as int, i + t@.len())[idx - i] != t@[idx - i]);
            return false;
        }
        idx += 1;
    }
    assert(s@.subrange(i as int, i + t@.len()) =~= t@);
    true
}

proof fn lemma_find_from(s: Seq<char>, t: Seq<char>, i: int, j: int)
    requires
        0 <= i <= j,
        forall|k: int| i <= k < j ==> !occurs_at(s, t, k),
    ensures
        find_from(s, t, i) == find_from(s, t, j),
    decreases j - i,
{
    if i < j {
        if i + t.len() > s.len() {
            assert(j + t.len() > s.len());
        } else {
            lemma_find_from(s, t, i + 1, j);
        }
    }
}

/// The first position of `t` in `s`, if any.
pub fn find_chars(s: &[char], t: &[char]) -> (r: Option<usize>)
    ensures
        match r {
            Some(i) => find_str(s@, t@) == Some(i as int),
            None => find_str(s@, t@) is None,
        },
{
    if t.len() > s.len() {
        return None;
    }
    if t.len() == 0 {
        assert(s@.subrange(0, 0) =~= t@);
        assert(occurs_at(s@, t@, 0));
        return Some(0);
    }
    let mut i: usize = 0;
    while i <= s.len() - t.len()
        invariant
            1 <= t@.len() <= s@.len(),
            i <= s@.len() - t@.len() + 1,
            find_str(s@, t@) == find_from(s@, t@, i as int),
        decreases s.len() - t.len() + 1 - i,
    {
        if occurs_at_exec(s, t, i) {
            return Some(i);
        }
        proof {
            lemma_find_from(s@, t@, i as int, i + 1);
        }
        i += 1;
    }
    None
}

/// The last position of `t` in `s`, if any.
pub fn rfind_chars(s: &[char], t: &[char]) -> (r: Option<usize>)
    ensures
        match r {
            Some(i) => rfind_str(s@, t@) == Some(i as int),
            None => rfind_str(s@, t@) is None,
        },
{
    if t.len() > s.len() {
        return None;
    }
    if t.len() == 0 {
        assert(s@.subrange(s@.len() as int, s@.len() as int) =~= t@);
        assert(occurs_at(s@, t@, s@.len() as int));
        return Some(s.len());
    }
    let mut i: usize = s.len() - t.len() + 1;
    while i > 0
        invariant
            t@.len() <= s@.len(),
            i <= s@.len() - t@.len() + 1,
            rfind_str(s@, t@) == rfind_to(s@, t@, i - 1),
        decreases i,
    {
        if occurs_at_exec(s, t, i - 1) {
            return Some(i - 1);
        }
        i -= 1;
    }
    None
}

/// Whether `t` occurs in `s`.
pub fn contains_chars(s: &[char], t: &[char]) -> (r: bool)
    ensures
        r == contains_str(s@, t@),
{
    match find_chars(s, t) {
        Some(_) => true,
        None => false,
    }
}

/// Whether the literal `t` occurs in `s`.
pub fn contains_lit(s: &[char], t: &str) -> (r: bool)
    ensures
        r == contains_str(s@, t@),
{
    let tv = crate::text::chars_of(t);
    contains_chars(s, tv.as_slice())
}

/// Whether `c` occurs in `s`.
pub fn has_char(s: &[char], c: char) -> (r: bool)
    ensures
        r == s@.contains(c),
{
    contains_char(s, c)
}

/// The pieces of `s` between occurrences of `sep` (one more than the number of `sep`s).
pub open spec fn split_on(s: Seq<char>, sep: char) -> Seq<Seq<char>>
    decreases s.len(),
{
    if s.len() == 0 {
        seq![Seq::empty()]
    } else {
        let rest = split_on(s.drop_last(), sep);
        if s.last() == sep {
            rest.push(Seq::empty())
        } else {
            rest.update(rest.len() - 1, rest.last().push(s.last()))
        }
    }
}

pub proof fn lemma_split_nonempty(s: Seq<char>, sep: char)
    ensures
        split_on(s, sep).len() >= 1,
    decreases s.len(),
{
    if s.len() > 0 {
        lemma_split_nonempty(s.drop_last(), sep);
    }
}


/// The state of a left-to-right scan for words: finished words and the word in progress.
pub open spec fn word_scan(s: Seq<char>) -> (Seq<Seq<char>>, Seq<char>)
    decreases s.len(),
{
    if s.len() == 0 {
        (Seq::empty(), Seq::empty())
    } else {
        let (done, cur) = word_scan(s.drop_last());
        if is_ws(s.last()) {
            (if cur.len() > 0 {
                done.push(cur)
            } else {
                done
            }, Seq::empty())
        } else {
            (done, cur.push(s.last()))
        }
    }
}

/// The maximal runs of non-white-space characters (`str::split_whitespace`).
pub open spec fn words(s: Seq<char>) -> Seq<Seq<char>> {
    let (done, cur) = word_scan(s);
    if cur.len() > 0 {
        done.push(cur)
    } else {
        done
    }
}

/// The character views of a list of character vectors.
pub open spec fn seqs_view(v: Seq<Vec<char>>) -> Seq<Seq<char>> {
    v.map_values(|x: Vec<char>| x@)
}

/// The white-space separated words of `s`.
pub fn split_whitespace(s: &[char]) -> (r: Vec<Vec<char>>)
    ensures
        seqs_view(r@) == words(s@),
{
    let mut done: Vec<Vec<char>> = Vec::new();
    let mut cur: Vec<char> = Vec::new();
    let mut i: usize = 0;
    while i < s.len()
        invariant
            i <= s@.len(),
            (seqs_view(done@), cur@) == word_scan(s@.take(i as int)),
        decreases s.len() - i,
    {
        proof {
            let t = s@.take(i + 1);
            assert(t.drop_last() =~= s@.take(i as int));
            assert(t.last() == s@[i as int]);
        }
        let ghost d0 = seqs_view(done@);
        if is_whitespace(s[i]) {
            if cur.len() > 0 {
                let w = cur;
                done.push(w);
                assert(seqs_view(done@) =~= d0.push(w@));
                cur = Vec::new();
            }
        } else {
            cur.push(s[i]);
        }
        i += 1;
    }
    assert(s@.take(s@.len() as int) =~= s@);
    if cur.len() > 0 {
        let ghost d0 = seqs_view(done@);
        let w = cur;
        done.push(w);
        assert(seqs_view(done@) =~= d0.push(w@));
    }
    done
}

/// A line without one trailing carriage return.
pub open spec fn strip_cr(p: Seq<char>) -> Seq<char> {
    if p.len() > 0 && p.last() == '\r' {
        p.drop_last()
    } else {
        p
    }
}

/// The lines of `s` (`str::lines`): split at `\n`, a `\r` before the `\n`
/// dropped, no final empty line.
pub open spec fn lines(s: Seq<char>) -> Seq<Seq<char>> {
    let ps = split_on(s, '\n');
    let n = ps.len() as int;
    Seq::new((n - 1) as nat, |k: int| strip_cr(ps[k])) + if ps[n - 1].len() > 0 {
        seq![ps[n - 1]]
    } else {
        Seq::<Seq<char>>::empty()
    }
}

/// The lines of `s`.
pub fn lines_of(s: &[char]) -> (r: Vec<Vec<char>>)
    ensures
        seqs_view(r@) == lines(s@),
{
    let mut parts: Vec<Vec<char>> = Vec::new();
    parts.push(Vec::new());
    proof {
        assert(split_on(s@.take(0), '\n') =~= seq![Seq::<char>::empty()]);
    }
    let mut i: usize = 0;
    while i < s.len()
        invariant
            i <= s@.len(),
            parts@.len() >= 1,
            seqs_view(parts@) == split_on(s@.take(i as int), '\n'),
        decreases s.len() - i,
    {
        let ghost before = seqs_view(parts@);
        proof {
            let t = s@.take(i + 1);
            assert(t.drop_last() =~= s@.take(i as int));
            assert(t.last() == s@[i as int]);
        }
        if s[i] == '\n' {
            parts.push(Vec::new());
            assert(seqs_view(parts@) =~= before.push(Seq::empty()));
        } else {
            let mut last = parts.pop().unwrap();
            let ghost lv = last@;
            last.push(s[i]);
            parts.push(last);
            assert(lv == before.last());
            assert(seqs_view(parts@) =~= before.update(before.len() - 1, before.last().push(s@[i as int])));
        }
        i += 1;
    }
    assert(s@.take(s@.len() as int) =~= s@);
    let ghost ps = seqs_view(parts@);
    let n = parts.len();
    let mut out: Vec<Vec<char>> = Vec::new();
    let mut k: usize = 0;
    while k + 1 < n
        invariant
            n == parts@.len(),
            n >= 1,
            ps == seqs_view(parts@),
            k + 1 <= n,
            seqs_view(out@) == Seq::new(k as nat, |j: int| strip_cr(ps[j])),
        decreases n - k,
    {
        let p = &parts[k];
        let ghost o0 = seqs_view(out@);
        let line = if p.len() > 0 && p[p.len() - 1] == '\r' {
            take_chars(p.as_slice(), p.len() - 1)
        } else {
            crate::graph::slice_from(p.as_slice(), 0)
        };
        proof {
            assert(ps[k as int] == p@);
            if p@.len() > 0 && p@[p@.len() - 1] == '\r' {
                assert(p@.take(p@.len() - 1) =~= p@.drop_last());
            } else {
                assert(p@.skip(0) =~= p@);
            }
        }
        assert(line@ == strip_cr(ps[k as int]));
        let ghost lv = line@;
        out.push(line);
        assert(seqs_view(out@) =~= o0.push(lv));
        assert(seqs_view(out@) =~= Seq::new((k + 1) as nat, |j: int| strip_cr(ps[j])));
        k += 1;
    }
    let last = &parts[n - 1];
    let ghost o1 = seqs_view(out@);
    if last.len() > 0 {
        out.push(crate::graph::slice_from(last.as_slice(), 0));
        assert(last@.skip(0) =~= last@);
        assert(seqs_view(out@) =~= o1.push(ps[n - 1]));
    }
    assert(seqs_view(out@) =~= lines(s@));
    out
}

/// The lower-case form of an ASCII letter; other characters unchanged.
pub open spec fn lower_char(c: char) -> char {
    if 'A' <= c && c <= 'Z' {
        "abcdefghijklmnopqrstuvwxyz"@[(c as u32 - 65) as int]
    } else {
        c
    }
}

/// `s` with ASCII letters lowered (`str::to_ascii_lowercase`).
pub open spec fn to_lower(s: Seq<char>) -> Seq<char> {
    s.map_values(|c: char| lower_char(c))
}

/// The ASCII lower-case form of `s`.
pub fn to_lower_chars(s: &[char]) -> (r: Vec<char>)
    ensures
        r@ == to_lower(s@),
{
    let table = crate::text::chars_of("abcdefghijklmnopqrstuvwxyz");
    proof {
        reveal_strlit("abcdefghijklmnopqrstuvwxyz");
    }
    let mut out: Vec<char> = Vec::new();
    let mut i: usize = 0;
    while i < s.len()
        invariant
            i <= s@.len(),
            table@ == "abcdefghijklmnopqrstuvwxyz"@,
            table@.len() == 26,
            out@ == to_lower(s@.take(i as int)),
        decreases s.len() - i,
    {
        let c = s[i];
        let l = if 'A' <= c && c <= 'Z' {
            table[(c as u32 - 65) as usize]
        } else {
            c
        };
        assert(l == lower_char(c));
        out.push(l);
        assert(out@ =~= to_lower(s@.take(i + 1)));
        i += 1;
    }
    assert(s@.take(s@.len() as int) =~= s@);
    out
}


/// The character at `first_index` satisfies the predicate; none before it does.
pub proof fn lemma_first_index_hit(s: Seq<char>, p: spec_fn(char) -> bool)
    ensures
        0 <= first_index(s, p) <= s.len(),
        first_index(s, p) < s.len() ==> p(s[first_index(s, p)]),
        forall|j: int| 0 <= j < first_index(s, p) ==> !p(#[trigger] s[j]),
    decreases s.len(),
{
    if s.len() > 0 && !p(s[0]) {
        lemma_first_index_hit(s.skip(1), p);
        assert forall|j: int| 0 <= j < first_index(s, p) implies !p(#[trigger] s[j]) by {
            if j > 0 {
                assert(s[j] == s.skip(1)[j - 1]);
            }
        }
    }
}

} // verus!
