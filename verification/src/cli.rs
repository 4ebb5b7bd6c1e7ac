//! Command-line options of the `apex` commands and the expansion of home
//! directory shorthand in paths.
use crate::model::opt_view;
use crate::strs::{strip_prefix, strip_prefix_str, trim, trim_ws};
use crate::text::{chars_of, eq_lit, owned, push_all, push_str, string_of, strs_view};
use crate::web::{is_format, is_format_name, Dialect};
use vstd::prelude::*;

verus! {

broadcast use vstd::string::group_string_axioms;

/// `base` joined with `rest` as `PathBuf::join` does on Unix: an absolute
/// `rest` replaces `base`, else a `/` separates them unless `base` is empty
/// or already ends with one.
pub open spec fn join_path(base: Seq<char>, rest: Seq<char>) -> Seq<char> {
    if rest.len() > 0 && rest[0] == '/' {
        rest
    } else if base.len() > 0 && base.last() != '/' {
        base + seq!['/'] + rest
    } else {
        base + rest
    }
}

/// Joins two paths.
pub fn join_path_str(base: &str, rest: &[char]) -> (r: String)
    ensures
        r@ == join_path(base@, rest@),
{
    let b = chars_of(base);
    if rest.len() > 0 && rest[0] == '/' {
        return string_of(rest);
    }
    let mut out: Vec<char> = Vec::new();
    push_all(&mut out, b.as_slice());
    if b.len() > 0 && b[b.len() - 1] != '/' {
        out.push('/');
    }
    push_all(&mut out, rest);
    assert(b@.len() > 0 ==> b@.last() == b@[b@.len() - 1]);
    proof {
        if b@.len() > 0 && b@.last() != '/' {
            assert(out@ =~= b@ + seq!['/'] + rest@);
        } else {
            assert(out@ =~= b@ + rest@);
        }
    }
    string_of(out.as_slice())
}

/// The message for a `~` that cannot be expanded.
pub open spec fn tilde_message(d: Dialect) -> Seq<char> {
    if d == Dialect::Cli { "cannot expand '~' because HOME is not set"@ } else { "HOME is not set"@ }
}

/// The message for a `~/` that cannot be expanded.
pub open spec fn tilde_slash_message(d: Dialect) -> Seq<char> {
    if d == Dialect::Cli { "cannot expand '~/' because HOME is not set"@ } else { "HOME is not set"@ }
}

/// The message for a `$HOME` form that cannot be expanded.
pub open spec fn home_message(d: Dialect) -> Seq<char> {
    if d == Dialect::Cli { "cannot expand HOME shorthand because HOME is not set"@ } else { "HOME is not set"@ }
}

/// The home directory, or the message.
pub open spec fn home_or(home: Option<Seq<char>>, msg: Seq<char>) -> Result<Seq<char>, Seq<char>> {
    match home {
        Some(h) => Ok(h),
        None => Err(msg),
    }
}

/// The home directory joined with `rest`, or the message.
pub open spec fn home_join(home: Option<Seq<char>>, rest: Seq<char>, msg: Seq<char>) -> Result<Seq<char>, Seq<char>> {
    match home {
        Some(h) => Ok(join_path(h, rest)),
        None => Err(msg),
    }
}

/// A path with its home directory shorthand expanded: the input is trimmed;
/// empty is `.`; `~`, `$HOME` and `${HOME}` are the home directory; `~/`,
/// `$HOME/` and `${HOME}/` lead a path below it; anything else is kept.
pub open spec fn expanded_path(input: Seq<char>, home: Option<Seq<char>>, d: Dialect) -> Result<Seq<char>, Seq<char>> {
    let v = trim(input);
    if v.len() == 0 {
        Ok("."@)
    } else if v == "~"@ {
        home_or(home, tilde_message(d))
    } else if strip_prefix(v, "~/"@) is Some {
        home_join(home, strip_prefix(v, "~/"@)->0, tilde_slash_message(d))
    } else if v == "$HOME"@ || v == "${HOME}"@ {
        home_or(home, home_message(d))
    } else if strip_prefix(v, "$HOME/"@) is Some {
        home_join(home, strip_prefix(v, "$HOME/"@)->0, home_message(d))
    } else if strip_prefix(v, "${HOME}/"@) is Some {
        home_join(home, strip_prefix(v, "${HOME}/"@)->0, home_message(d))
    } else {
        Ok(v)
    }
}

/// A result read as plain values.
pub open spec fn res_view(r: Result<String, String>) -> Result<Seq<char>, Seq<char>> {
    match r {
        Ok(s) => Ok(s@),
        Err(e) => Err(e@),
    }
}

/// An optional string read as an optional character sequence.
pub open spec fn home_view(h: Option<&str>) -> Option<Seq<char>> {
    match h {
        Some(s) => Some(s@),
        None => None,
    }
}

fn home_result(home: Option<&str>, msg: &str) -> (r: Result<String, String>)
    ensures
        res_view(r) == home_or(home_view(home), msg@),
{
    match home {
        Some(h) => Ok(owned(h)),
        None => Err(owned(msg)),
    }
}

fn home_join_result(home: Option<&str>, rest: &[char], msg: &str) -> (r: Result<String, String>)
    ensures
        res_view(r) == home_join(home_view(home), rest@, msg@),
{
    match home {
        Some(h) => Ok(join_path_str(h, rest)),
        None => Err(owned(msg)),
    }
}

/// Expands home directory shorthand in the manner of `d`, with `home` the
/// value of `HOME` if it is set.
pub fn expand_with(input: &str, home: Option<&str>, d: Dialect) -> (r: Result<String, String>)
    ensures
        res_view(r) == expanded_path(input@, home_view(home), d),
{
    let iv = chars_of(input);
    let v = trim_ws(iv.as_slice());
    let tilde: &str = match d {
        Dialect::Cli => "cannot expand '~' because HOME is not set",
        Dialect::Ui => "HOME is not set",
    };
    let tilde_slash: &str = match d {
        Dialect::Cli => "cannot expand '~/' because HOME is not set",
        Dialect::Ui => "HOME is not set",
    };
    let home_msg: &str = match d {
        Dialect::Cli => "cannot expand HOME shorthand because HOME is not set",
        Dialect::Ui => "HOME is not set",
    };
    if v.len() == 0 {
        return Ok(owned("."));
    }
    if eq_lit(v.as_slice(), "~") {
        return home_result(home, tilde);
    }
    if let Some(rest) = strip_prefix_str(v.as_slice(), "~/") {
        return home_join_result(home, rest.as_slice(), tilde_slash);
    }
    if eq_lit(v.as_slice(), "$HOME") || eq_lit(v.as_slice(), "${HOME}") {
        return home_result(home, home_msg);
    }
    if let Some(rest) = strip_prefix_str(v.as_slice(), "$HOME/") {
        return home_join_result(home, rest.as_slice(), home_msg);
    }
    if let Some(rest) = strip_prefix_str(v.as_slice(), "${HOME}/") {
        return home_join_result(home, rest.as_slice(), home_msg);
    }
    Ok(string_of(v.as_slice()))
}

/// Expands `~`, `~/`, `$HOME`, `${HOME}`, `$HOME/` and `${HOME}/` in a
/// command-line path, with `home` the value of `HOME` if it is set.
pub fn expand_path_shorthand(input: &str, home: Option<&str>) -> (r: Result<String, String>)
    ensures
        res_view(r) == expanded_path(input@, home_view(home), Dialect::Cli),
{
    expand_with(input, home, Dialect::Cli)
}

/// Expands home directory shorthand as the desktop UI server does, with
/// `home` the value of `HOME` if it is set.
pub fn expand_path(input: &str, home: Option<&str>) -> (r: Result<String, String>)
    ensures
        res_view(r) == expanded_path(input@, home_view(home), Dialect::Ui),
{
    expand_with(input, home, Dialect::Ui)
}

/// Options of `apex check`.
pub struct CheckOptions {
    pub root: String,
    pub rules: Option<String>,
}

/// `apex check` arguments read from position `i` on, with the root and rules
/// file found so far.
pub open spec fn check_args(args: Seq<Seq<char>>, i: int, root: Seq<char>, rules: Option<Seq<char>>) -> Result<
    (Seq<char>, Option<Seq<char>>),
    Seq<char>,
>
    decreases args.len() - i,
{
    if i < 0 || i >= args.len() {
        Ok((root, rules))
    } else if args[i] == "--rules"@ || args[i] == "-r"@ {
        if i + 1 < args.len() {
            check_args(args, i + 2, root, Some(args[i + 1]))
        } else {
            Err("--rules requires a file path"@)
        }
    } else if args[i] == "--help"@ || args[i] == "-h"@ {
        Err("usage: apex check [path] [--rules apex.rules.yaml]"@)
    } else {
        check_args(args, i + 1, args[i], rules)
    }
}

impl CheckOptions {
    /// Reads `[path] [--rules file]`; the last path given wins.
    pub fn from_args(args: Vec<String>) -> (r: Result<CheckOptions, String>)
        ensures
            match r {
                Ok(o) => check_args(strs_view(args@), 0, "."@, None) == Ok::<(Seq<char>, Option<Seq<char>>), Seq<char>>(
                    (o.root@, opt_view(o.rules)),
                ),
                Err(e) => check_args(strs_view(args@), 0, "."@, None) == Err::<(Seq<char>, Option<Seq<char>>), Seq<char>>(
                    e@,
                ),
            },
    {
        let ghost a = strs_view(args@);
        let mut root = owned(".");
        let mut rules: Option<String> = None;
        let mut index: usize = 0;
        while index < args.len()
            invariant
                index <= args@.len(),
                a == strs_view(args@),
                check_args(a, 0, "."@, None) == check_args(a, index as int, root@, opt_view(rules)),
            decreases args.len() - index,
        {
            let v = chars_of(args[index].as_str());
            assert(a[index as int] == v@);
            if eq_lit(v.as_slice(), "--rules") || eq_lit(v.as_slice(), "-r") {
                if index + 1 < args.len() {
                    assert(a[index + 1] == args@[index + 1]@);
                    rules = Some(args[index + 1].clone());
                    index += 2;
                } else {
                    return Err(owned("--rules requires a file path"));
                }
            } else if eq_lit(v.as_slice(), "--help") || eq_lit(v.as_slice(), "-h") {
                return Err(owned("usage: apex check [path] [--rules apex.rules.yaml]"));
            } else {
                root = args[index].clone();
                index += 1;
            }
        }
        Ok(CheckOptions { root, rules })
    }
}

/// Options of `apex metrics`.
pub struct MetricsOptions {
    pub root: String,
    pub format: String,
}

/// `apex metrics` arguments read from position `i` on.
pub open spec fn metrics_args(args: Seq<Seq<char>>, i: int, root: Seq<char>, format: Seq<char>) -> Result<
    (Seq<char>, Seq<char>),
    Seq<char>,
>
    decreases args.len() - i,
{
    if i < 0 || i >= args.len() {
        Ok((root, format))
    } else if args[i] == "--format"@ || args[i] == "-f"@ {
        if i + 1 < args.len() {
            metrics_args(args, i + 2, root, args[i + 1])
        } else {
            Err("--format requires a value"@)
        }
    } else if args[i] == "--help"@ || args[i] == "-h"@ {
        Err("usage: apex metrics [path] [--format text|json]"@)
    } else {
        metrics_args(args, i + 1, args[i], format)
    }
}

/// The options `apex metrics` takes from its arguments: the format must be
/// `text` or `json`.
pub open spec fn metrics_options(args: Seq<Seq<char>>) -> Result<(Seq<char>, Seq<char>), Seq<char>> {
    match metrics_args(args, 0, "."@, "text"@) {
        Err(e) => Err(e),
        Ok((root, format)) => if format != "text"@ && format != "json"@ {
            Err("unsupported metrics format '"@ + format + "'"@)
        } else {
            Ok((root, format))
        },
    }
}

/// `msg` followed by `value` in single quotes.
fn quoted_message(msg: &str, value: &str) -> (r: String)
    ensures
        r@ == msg@ + value@ + "'"@,
{
    let mut out: Vec<char> = Vec::new();
    push_str(&mut out, msg);
    push_str(&mut out, value);
    push_str(&mut out, "'");
    assert(out@ =~= msg@ + value@ + "'"@);
    string_of(out.as_slice())
}

impl MetricsOptions {
    /// Reads `[path] [--format text|json]`.
    pub fn from_args(args: Vec<String>) -> (r: Result<MetricsOptions, String>)
        ensures
            match r {
                Ok(o) => metrics_options(strs_view(args@)) == Ok::<(Seq<char>, Seq<char>), Seq<char>>((o.root@, o.format@)),
                Err(e) => metrics_options(strs_view(args@)) == Err::<(Seq<char>, Seq<char>), Seq<char>>(e@),
            },
    {
        let ghost a = strs_view(args@);
        let mut root = owned(".");
        let mut format = owned("text");
        let mut index: usize = 0;
        while index < args.len()
            invariant
                index <= args@.len(),
                a == strs_view(args@),
                metrics_args(a, 0, "."@, "text"@) == metrics_args(a, index as int, root@, format@),
            decreases args.len() - index,
        {
            let v = chars_of(args[index].as_str());
            assert(a[index as int] == v@);
            if eq_lit(v.as_slice(), "--format") || eq_lit(v.as_slice(), "-f") {
                if index + 1 < args.len() {
                    assert(a[index + 1] == args@[index + 1]@);
                    format = args[index + 1].clone();
                    index += 2;
                } else {
                    return Err(owned("--format requires a value"));
                }
            } else if eq_lit(v.as_slice(), "--help") || eq_lit(v.as_slice(), "-h") {
                return Err(owned("usage: apex metrics [path] [--format text|json]"));
            } else {
                root = args[index].clone();
                index += 1;
            }
        }
        let f = chars_of(format.as_str());
        if !eq_lit(f.as_slice(), "text") && !eq_lit(f.as_slice(), "json") {
            return Err(quoted_message("unsupported metrics format '", format.as_str()));
        }
        Ok(MetricsOptions { root, format })
    }
}

/// Options of `apex export` and `apex diagram`.
pub struct ExportOptions {
    pub format: String,
    pub root: String,
    pub output: Option<String>,
}

/// Flags of `apex export` read from position `i` on: the format and output
/// given so far and the positional words in order.
pub open spec fn export_args(
    args: Seq<Seq<char>>,
    i: int,
    format: Seq<char>,
    output: Option<Seq<char>>,
    positional: Seq<Seq<char>>,
) -> Result<(Seq<char>, Option<Seq<char>>, Seq<Seq<char>>), Seq<char>>
    decreases args.len() - i,
{
    if i < 0 || i >= args.len() {
        Ok((format, output, positional))
    } else if args[i] == "--format"@ || args[i] == "-f"@ {
        if i + 1 < args.len() {
            export_args(args, i + 2, args[i + 1], output, positional)
        } else {
            Err("--format requires a value"@)
        }
    } else if args[i] == "--out"@ || args[i] == "-o"@ {
        if i + 1 < args.len() {
            export_args(args, i + 2, format, Some(args[i + 1]), positional)
        } else {
            Err("--out requires a value"@)
        }
    } else if args[i] == "--help"@ || args[i] == "-h"@ {
        Err("usage: apex diagram [path] [--format svg|mermaid|html|json] [--out file]"@)
    } else {
        export_args(args, i + 1, format, output, positional.push(args[i]))
    }
}

/// The format and root after the positional words: a format name sets the
/// format, any other word the root; later words win.
pub open spec fn positional_pick(ps: Seq<Seq<char>>, format: Seq<char>, root: Seq<char>) -> (Seq<char>, Seq<char>)
    decreases ps.len(),
{
    if ps.len() == 0 {
        (format, root)
    } else {
        let (f, r) = positional_pick(ps.drop_last(), format, root);
        if is_format_name(ps.last()) {
            (ps.last(), r)
        } else {
            (f, ps.last())
        }
    }
}

/// The options `apex export` takes from its arguments.
pub open spec fn export_options(args: Seq<Seq<char>>) -> Result<(Seq<char>, Seq<char>, Option<Seq<char>>), Seq<char>> {
    match export_args(args, 0, "svg"@, None, Seq::empty()) {
        Err(e) => Err(e),
        Ok((format, output, positional)) => {
            let (f, root) = positional_pick(positional, format, "."@);
            if !is_format_name(f) {
                Err("unsupported export format '"@ + f + "'"@)
            } else {
                Ok((f, root, output))
            }
        },
    }
}

impl ExportOptions {
    /// Reads `[format] [path] [--format f] [--out file]`.
    pub fn from_args(args: Vec<String>) -> (r: Result<ExportOptions, String>)
        ensures
            match r {
                Ok(o) => export_options(strs_view(args@)) == Ok::<(Seq<char>, Seq<char>, Option<Seq<char>>), Seq<char>>(
                    (o.format@, o.root@, opt_view(o.output)),
                ),
                Err(e) => export_options(strs_view(args@)) == Err::<(Seq<char>, Seq<char>, Option<Seq<char>>), Seq<char>>(
                    e@,
                ),
            },
    {
        let ghost a = strs_view(args@);
        let mut format = owned("svg");
        let mut output: Option<String> = None;
        let mut positional: Vec<String> = Vec::new();
        let mut index: usize = 0;
        assert(strs_view(positional@) =~= Seq::<Seq<char>>::empty());
        while index < args.len()
            invariant
                index <= args@.len(),
                a == strs_view(args@),
                export_args(a, 0, "svg"@, None, Seq::empty()) == export_args(
                    a,
                    index as int,
                    format@,
                    opt_view(output),
                    strs_view(positional@),
                ),
            decreases args.len() - index,
        {
            let v = chars_of(args[index].as_str());
            assert(a[index as int] == v@);
            if eq_lit(v.as_slice(), "--format") || eq_lit(v.as_slice(), "-f") {
                if index + 1 < args.len() {
                    assert(a[index + 1] == args@[index + 1]@);
                    format = args[index + 1].clone();
                    index += 2;
                } else {
                    return Err(owned("--format requires a value"));
                }
            } else if eq_lit(v.as_slice(), "--out") || eq_lit(v.as_slice(), "-o") {
                if index + 1 < args.len() {
                    assert(a[index + 1] == args@[index + 1]@);
                    output = Some(args[index + 1].clone());
                    index += 2;
                } else {
                    return Err(owned("--out requires a value"));
                }
            } else if eq_lit(v.as_slice(), "--help") || eq_lit(v.as_slice(), "-h") {
                return Err(owned("usage: apex diagram [path] [--format svg|mermaid|html|json] [--out file]"));
            } else {
                let ghost before = strs_view(positional@);
                let w = args[index].clone();
                assert(w@ == a[index as int]);
                positional.push(w);
                assert(strs_view(positional@) =~= before.push(a[index as int]));
                index += 1;
            }
        }
        let ghost pv = strs_view(positional@);
        let ghost fmt0 = format@;
        let mut root = owned(".");
        let mut k: usize = 0;
        assert(pv.take(0) =~= Seq::<Seq<char>>::empty());
        while k < positional.len()
            invariant
                k <= positional@.len(),
                pv == strs_view(positional@),
                (format@, root@) == positional_pick(pv.take(k as int), fmt0, "."@),
            decreases positional.len() - k,
        {
            assert(pv.take(k + 1).drop_last() =~= pv.take(k as int));
            assert(pv[k as int] == positional@[k as int]@);
            if is_format(positional[k].as_str()) {
                format = positional[k].clone();
            } else {
                root = positional[k].clone();
            }
            k += 1;
        }
        assert(pv.take(pv.len() as int) =~= pv);
        if !is_format(format.as_str()) {
            return Err(quoted_message("unsupported export format '", format.as_str()));
        }
        Ok(ExportOptions { format, root, output })
    }
}

/// The value of a decimal digit.
pub open spec fn dec_val(c: char) -> Option<nat> {
    if '0' <= c && c <= '9' {
        Some((c as nat - 48) as nat)
    } else {
        None
    }
}

/// The value of a run of decimal digits, if they all are digits.
pub open spec fn dec_digits_value(d: Seq<char>) -> Option<nat>
    decreases d.len(),
{
    if d.len() == 0 {
        Some(0)
    } else {
        match (dec_digits_value(d.drop_last()), dec_val(d.last())) {
            (Some(v), Some(x)) => Some(v * 10 + x),
            _ => None,
        }
    }
}

/// What `str::parse::<u16>` gives: an optional `+`, then at least one
/// decimal digit, with a value below 65536.
pub open spec fn u16_parsed(s: Seq<char>) -> Option<u16> {
    if s.len() == 0 || s == seq!['+'] || s == seq!['-'] {
        None
    } else {
        let d = if s[0] == '+' { s.skip(1) } else { s };
        match dec_digits_value(d) {
            Some(v) => if v <= 65535 { Some(v as u16) } else { None },
            None => None,
        }
    }
}

proof fn lemma_dec_none_extends(d: Seq<char>, n: int)
    requires
        0 < n <= d.len(),
        dec_digits_value(d.take(n)) is None,
    ensures
        dec_digits_value(d) is None,
    decreases d.len() - n,
{
    if n < d.len() {
        assert(d.take(n + 1).drop_last() =~= d.take(n));
        lemma_dec_none_extends(d, n + 1);
    } else {
        assert(d.take(n) =~= d);
    }
}

/// Reads a port number as `str::parse::<u16>` does.
pub fn parse_u16(s: &[char]) -> (r: Option<u16>)
    ensures
        r == u16_parsed(s@),
{
    if s.len() == 0 {
        return None;
    }
    if s.len() == 1 && (s[0] == '+' || s[0] == '-') {
        assert(s@ == seq![s[0]]);
        return None;
    }
    assert(s@ != seq!['+'] && s@ != seq!['-']) by {
        if s@.len() == 1 {
            assert(s@ == seq!['+'] ==> s@[0] == '+');
            assert(s@ == seq!['-'] ==> s@[0] == '-');
        }
    }
    let start: usize = if s[0] == '+' { 1 } else { 0 };
    let ghost d = if s@[0] == '+' { s@.skip(1) } else { s@ };
    let mut v: u32 = 0;
    let mut k: usize = start;
    assert(d.take(0) =~= Seq::<char>::empty());
    while k < s.len()
        invariant
            start <= k <= s@.len(),
            d =~= s@.skip(start as int),
            s@.len() > 0,
            s@ != seq!['+'],
            s@ != seq!['-'],
            d == (if s@[0] == '+' { s@.skip(1) } else { s@ }),
            v <= 65536,
            match dec_digits_value(d.take(k - start)) {
                Some(w) => v == (if w < 65536 { w } else { 65536 }),
                None => false,
            },
        decreases s.len() - k,
    {
        let c = s[k];
        assert(d.take(k + 1 - start).drop_last() =~= d.take(k - start));
        assert(d.take(k + 1 - start).last() == c);
        if '0' <= c && c <= '9' {
            let x = c as u32 - 48;
            let nv = v * 10 + x;
            v = if nv < 65536 { nv } else { 65536 };
        } else {
            proof {
                lemma_dec_none_extends(d, (k + 1 - start) as int);
            }
            return None;
        }
        k += 1;
    }
    assert(d.take(s@.len() - start) =~= d);
    if v < 65536 {
        Some(v as u16)
    } else {
        None
    }
}

/// Options of `apex ui`.
pub struct UiOptions {
    pub host: String,
    pub port: u16,
    pub ui_dist: String,
}

/// `apex ui` arguments read from position `i` on.
pub open spec fn ui_args(args: Seq<Seq<char>>, i: int, host: Seq<char>, port: u16, ui_dist: Seq<char>) -> Result<
    (Seq<char>, u16, Seq<char>),
    Seq<char>,
>
    decreases args.len() - i,
{
    if i < 0 || i >= args.len() {
        Ok((host, port, ui_dist))
    } else if args[i] == "--host"@ {
        if i + 1 < args.len() {
            ui_args(args, i + 2, args[i + 1], port, ui_dist)
        } else {
            Err("--host requires a value"@)
        }
    } else if args[i] == "--port"@ || args[i] == "-p"@ {
        if i + 1 < args.len() {
            match u16_parsed(args[i + 1]) {
                Some(p) => ui_args(args, i + 2, host, p, ui_dist),
                None => Err("invalid port '"@ + args[i + 1] + "'"@),
            }
        } else {
            Err("--port requires a value"@)
        }
    } else if args[i] == "--ui-dist"@ {
        if i + 1 < args.len() {
            ui_args(args, i + 2, host, port, args[i + 1])
        } else {
            Err("--ui-dist requires a value"@)
        }
    } else if args[i] == "--help"@ || args[i] == "-h"@ {
        Err("usage: apex ui [--host 127.0.0.1] [--port 4317] [--ui-dist ui/dist]"@)
    } else {
        Err("unknown ui option '"@ + args[i] + "'"@)
    }
}

/// The options `apex ui` takes from its arguments, with the UI build
/// directory's home shorthand expanded.
pub open spec fn ui_options(args: Seq<Seq<char>>, home: Option<Seq<char>>) -> Result<(Seq<char>, u16, Seq<char>), Seq<char>> {
    match ui_args(args, 0, "127.0.0.1"@, 4317, "ui/dist"@) {
        Err(e) => Err(e),
        Ok((host, port, dist)) => match expanded_path(dist, home, Dialect::Cli) {
            Ok(p) => Ok((host, port, p)),
            Err(e) => Err(e),
        },
    }
}

impl UiOptions {
    /// Reads `[--host h] [--port p] [--ui-dist dir]`, with `home` the value
    /// of `HOME` if it is set.
    pub fn from_args(args: Vec<String>, home: Option<&str>) -> (r: Result<UiOptions, String>)
        ensures
            match r {
                Ok(o) => ui_options(strs_view(args@), home_view(home)) == Ok::<(Seq<char>, u16, Seq<char>), Seq<char>>(
                    (o.host@, o.port, o.ui_dist@),
                ),
                Err(e) => ui_options(strs_view(args@), home_view(home)) == Err::<(Seq<char>, u16, Seq<char>), Seq<char>>(
                    e@,
                ),
            },
    {
        let ghost a = strs_view(args@);
        let mut host = owned("127.0.0.1");
        let mut port: u16 = 4317;
        let mut ui_dist = owned("ui/dist");
        let mut index: usize = 0;
        while index < args.len()
            invariant
                index <= args@.len(),
                a == strs_view(args@),
                ui_args(a, 0, "127.0.0.1"@, 4317, "ui/dist"@) == ui_args(a, index as int, host@, port, ui_dist@),
            decreases args.len() - index,
        {
            let v = chars_of(args[index].as_str());
            assert(a[index as int] == v@);
            if eq_lit(v.as_slice(), "--host") {
                if index + 1 < args.len() {
                    assert(a[index + 1] == args@[index + 1]@);
                    host = args[index + 1].clone();
                    index += 2;
                } else {
                    return Err(owned("--host requires a value"));
                }
            } else if eq_lit(v.as_slice(), "--port") || eq_lit(v.as_slice(), "-p") {
                if index + 1 < args.len() {
                    assert(a[index + 1] == args@[index + 1]@);
                    let pv = chars_of(args[index + 1].as_str());
                    match parse_u16(pv.as_slice()) {
                        Some(p) => {
                            port = p;
                            index += 2;
                        },
                        None => {
                            return Err(quoted_message("invalid port '", args[index + 1].as_str()));
                        },
                    }
                } else {
                    return Err(owned("--port requires a value"));
                }
            } else if eq_lit(v.as_slice(), "--ui-dist") {
                if index + 1 < args.len() {
                    assert(a[index + 1] == args@[index + 1]@);
                    ui_dist = args[index + 1].clone();
                    index += 2;
                } else {
                    return Err(owned("--ui-dist requires a value"));
                }
            } else if eq_lit(v.as_slice(), "--help") || eq_lit(v.as_slice(), "-h") {
                return Err(owned("usage: apex ui [--host 127.0.0.1] [--port 4317] [--ui-dist ui/dist]"));
            } else {
                return Err(quoted_message("unknown ui option '", args[index].as_str()));
            }
        }
        match expand_path_shorthand(ui_dist.as_str(), home) {
            Ok(p) => Ok(UiOptions { host, port, ui_dist: p }),
            Err(e) => Err(e),
        }
    }
}

} // verus!
