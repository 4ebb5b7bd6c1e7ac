//! Repository scanning over sources already read: which files are parsed, which
//! recognizer each file goes to, and the graph that a whole set of files gives.
use crate::graph::Graph;
use crate::line_parsers::{
    go_ops, parse_go, parse_prisma, parse_python, parse_ruby, parse_sql, prisma_scan, python_ops, ruby_ops,
    sql_panics, sql_scan, sql_would_panic,
};
use crate::manifest::{manifest_ops, parse_manifest};
use crate::model::NodeKind;
use crate::ops::{apply_all, graph_view, GraphView, OpView};
use crate::parsers::{
    dotted_lang_ops, java_ops, line_import_lang_ops, parse_cpp, parse_csharp, parse_dart, parse_java, parse_kotlin,
    parse_php, parse_rust, parse_scala, parse_swift, parse_typescript, rust_ops, typescript_ops,
};
use crate::spans::BraceLanguage;
use crate::imports::ImportStyle;
use crate::strs::{lines, to_lower, to_lower_chars};
use crate::text::{chars_of, ends_with, eq_lit, has_suffix, string_of};
use vstd::prelude::*;
use vstd::utf8::{decode_utf8, valid_utf8};

verus! {

broadcast use vstd::string::group_string_axioms;

/// The index of the last `c` in `s`, or -1.
pub open spec fn last_index_of(s: Seq<char>, c: char) -> int
    decreases s.len(),
{
    if s.len() == 0 {
        -1
    } else if s.last() == c {
        s.len() - 1
    } else {
        last_index_of(s.drop_last(), c)
    }
}

/// The extension of a file name, as `Path::extension` reads it: what follows
/// the last `.`, absent when there is no `.` or the only one leads the name.
pub open spec fn file_extension(name: Seq<char>) -> Option<Seq<char>> {
    let i = last_index_of(name, '.');
    if name == ".."@ || i <= 0 {
        None
    } else {
        Some(name.skip(i + 1))
    }
}

/// The ASCII lower-case extension of a file name, empty when it has none.
pub open spec fn extension_key(name: Seq<char>) -> Seq<char> {
    match file_extension(name) {
        Some(e) => to_lower(e),
        None => Seq::empty(),
    }
}

proof fn lemma_last_index_bounds(s: Seq<char>, c: char)
    ensures
        -1 <= last_index_of(s, c) < s.len(),
        last_index_of(s, c) >= 0 ==> s[last_index_of(s, c)] == c,
        forall|j: int| last_index_of(s, c) < j < s.len() ==> s[j] != c,
    decreases s.len(),
{
    if s.len() > 0 && s.last() != c {
        lemma_last_index_bounds(s.drop_last(), c);
        assert forall|j: int| last_index_of(s, c) < j < s.len() implies s[j] != c by {
            if j < s.len() - 1 {
                assert(s[j] == s.drop_last()[j]);
            }
        }
    }
}

/// The extension of a file name (`Path::extension`).
pub fn file_extension_of(file_name: &str) -> (r: Option<String>)
    ensures
        crate::model::opt_view(r) == file_extension(file_name@),
{
    let name = chars_of(file_name);
    let mut i: usize = name.len();
    assert(name@.take(name@.len() as int) =~= name@);
    while i > 0
        invariant
            i <= name@.len(),
            forall|j: int| i <= j < name@.len() ==> name@[j] != '.',
            last_index_of(name@, '.') == last_index_of(name@.take(i as int), '.'),
        ensures
            i <= name@.len(),
            last_index_of(name@, '.') == last_index_of(name@.take(i as int), '.'),
            i == 0 || name@[i - 1] == '.',
        decreases i,
    {
        if name[i - 1] == '.' {
            break;
        }
        assert(name@.take(i as int).drop_last() =~= name@.take(i - 1));
        i -= 1;
    }
    proof {
        if i > 0 {
            assert(name@.take(i as int).last() == name@[i - 1]);
            assert(last_index_of(name@, '.') == i - 1);
        } else {
            assert(name@.take(0) =~= Seq::<char>::empty());
            assert(last_index_of(name@, '.') == -1);
        }
    }
    let dotdot = eq_lit(name.as_slice(), "..");
    if dotdot || i <= 1 {
        return None;
    }
    let mut rest: Vec<char> = Vec::new();
    let mut k: usize = i;
    while k < name.len()
        invariant
            i <= k <= name@.len(),
            rest@ == name@.subrange(i as int, k as int),
        decreases name.len() - k,
    {
        rest.push(name[k]);
        k += 1;
        assert(rest@ =~= name@.subrange(i as int, k as int));
    }
    assert(rest@ =~= name@.skip(i as int));
    Some(string_of(rest.as_slice()))
}

/// The ASCII lower-case extension of a file name, empty when it has none.
pub fn extension_of(file_name: &str) -> (r: String)
    ensures
        r@ == extension_key(file_name@),
{
    match file_extension_of(file_name) {
        Some(e) => {
            let ev = chars_of(e.as_str());
            let low = to_lower_chars(ev.as_slice());
            string_of(low.as_slice())
        },
        None => {
            let empty = String::new();
            assert(empty@ =~= Seq::<char>::empty());
            empty
        },
    }
}

/// File names that are parsed whatever their extension.
pub open spec fn is_known_file_name(name: Seq<char>) -> bool {
    name == "go.mod"@ || name == "pom.xml"@ || name == "build.gradle"@ || name == "Gemfile"@ || name == "Dockerfile"@
}

/// Extensions of the files that are parsed.
pub open spec fn is_source_extension(e: Seq<char>) -> bool {
    e == "ts"@ || e == "tsx"@ || e == "js"@ || e == "jsx"@ || e == "mjs"@ || e == "cjs"@ || e == "py"@
        || e == "java"@ || e == "go"@ || e == "rs"@ || e == "kt"@ || e == "kts"@ || e == "cs"@ || e == "prisma"@
        || e == "sql"@ || e == "c"@ || e == "cc"@ || e == "cpp"@ || e == "cxx"@ || e == "h"@ || e == "hpp"@
        || e == "hh"@ || e == "hxx"@ || e == "swift"@ || e == "php"@ || e == "rb"@ || e == "scala"@ || e == "sc"@
        || e == "dart"@ || e == "json"@ || e == "toml"@ || e == "yaml"@ || e == "yml"@
}

/// Whether a file of this name is collected by a repository scan.
pub open spec fn parseable_name(name: Seq<char>) -> bool {
    is_known_file_name(name) || is_source_extension(extension_key(name))
}

fn is_known_file_name_exec(name: &[char]) -> (r: bool)
    ensures
        r == is_known_file_name(name@),
{
    eq_lit(name, "go.mod") || eq_lit(name, "pom.xml") || eq_lit(name, "build.gradle") || eq_lit(name, "Gemfile")
        || eq_lit(name, "Dockerfile")
}

fn is_source_extension_exec(e: &[char]) -> (r: bool)
    ensures
        r == is_source_extension(e@),
{
    eq_lit(e, "ts") || eq_lit(e, "tsx") || eq_lit(e, "js") || eq_lit(e, "jsx") || eq_lit(e, "mjs") || eq_lit(e, "cjs")
        || eq_lit(e, "py") || eq_lit(e, "java") || eq_lit(e, "go") || eq_lit(e, "rs") || eq_lit(e, "kt")
        || eq_lit(e, "kts") || eq_lit(e, "cs") || eq_lit(e, "prisma") || eq_lit(e, "sql") || eq_lit(e, "c")
        || eq_lit(e, "cc") || eq_lit(e, "cpp") || eq_lit(e, "cxx") || eq_lit(e, "h") || eq_lit(e, "hpp")
        || eq_lit(e, "hh") || eq_lit(e, "hxx") || eq_lit(e, "swift") || eq_lit(e, "php") || eq_lit(e, "rb")
        || eq_lit(e, "scala") || eq_lit(e, "sc") || eq_lit(e, "dart") || eq_lit(e, "json") || eq_lit(e, "toml")
        || eq_lit(e, "yaml") || eq_lit(e, "yml")
}

/// Whether a file with this name is collected by a repository scan: the
/// build and container files by name, the sources and manifests by extension.
pub fn is_parseable_path(file_name: &str) -> (r: bool)
    ensures
        r == parseable_name(file_name@),
{
    let name = chars_of(file_name);
    if is_known_file_name_exec(name.as_slice()) {
        return true;
    }
    let e = extension_of(file_name);
    let ev = chars_of(e.as_str());
    is_source_extension_exec(ev.as_slice())
}

/// Directory entries a repository scan passes over: build output,
/// dependencies and version control data.
pub open spec fn skipped_name(name: Seq<char>) -> bool {
    name == "target"@ || name == "node_modules"@ || name == ".git"@
}

/// Whether a repository scan passes over the directory entry with this name.
pub fn is_skipped_entry(name: &str) -> (r: bool)
    ensures
        r == skipped_name(name@),
{
    let v = chars_of(name);
    eq_lit(v.as_slice(), "target") || eq_lit(v.as_slice(), "node_modules") || eq_lit(v.as_slice(), ".git")
}

/// The recognizer a file is handed to.
#[derive(Clone, Copy, Debug, PartialEq, Eq, Structural)]
pub enum Recognizer {
    Typescript,
    Python,
    Java,
    Go,
    Rust,
    Kotlin,
    Csharp,
    Sql,
    Prisma,
    Cpp,
    Swift,
    Php,
    Ruby,
    Scala,
    Dart,
    Manifest,
    /// Collected but not parsed (such as a `Dockerfile`).
    Unparsed,
}

/// The recognizer for a file with this lower-case extension and relative path:
/// by extension, else the build files by the end of their path.
pub open spec fn recognizer_for(ext: Seq<char>, relative: Seq<char>) -> Recognizer {
    if ext == "ts"@ || ext == "tsx"@ || ext == "js"@ || ext == "jsx"@ || ext == "mjs"@ || ext == "cjs"@ {
        Recognizer::Typescript
    } else if ext == "py"@ {
        Recognizer::Python
    } else if ext == "java"@ {
        Recognizer::Java
    } else if ext == "go"@ {
        Recognizer::Go
    } else if ext == "rs"@ {
        Recognizer::Rust
    } else if ext == "kt"@ || ext == "kts"@ {
        Recognizer::Kotlin
    } else if ext == "cs"@ {
        Recognizer::Csharp
    } else if ext == "sql"@ {
        Recognizer::Sql
    } else if ext == "prisma"@ {
        Recognizer::Prisma
    } else if ext == "c"@ || ext == "cc"@ || ext == "cpp"@ || ext == "cxx"@ || ext == "h"@ || ext == "hpp"@
        || ext == "hh"@ || ext == "hxx"@ {
        Recognizer::Cpp
    } else if ext == "swift"@ {
        Recognizer::Swift
    } else if ext == "php"@ {
        Recognizer::Php
    } else if ext == "rb"@ {
        Recognizer::Ruby
    } else if ext == "scala"@ || ext == "sc"@ {
        Recognizer::Scala
    } else if ext == "dart"@ {
        Recognizer::Dart
    } else if ext == "json"@ || ext == "toml"@ || ext == "yaml"@ || ext == "yml"@ {
        Recognizer::Manifest
    } else if has_suffix(relative, "go.mod"@) || has_suffix(relative, "pom.xml"@) || has_suffix(relative, "build.gradle"@)
        || has_suffix(relative, "Gemfile"@) {
        Recognizer::Manifest
    } else {
        Recognizer::Unparsed
    }
}

/// The graph updates a recognizer makes of a file.
pub open spec fn recognizer_ops(r: Recognizer, path: Seq<char>, content: Seq<char>) -> Seq<OpView> {
    match r {
        Recognizer::Typescript => typescript_ops(path, content),
        Recognizer::Python => python_ops(path, content),
        Recognizer::Java => java_ops(path, content),
        Recognizer::Go => go_ops(path, content),
        Recognizer::Rust => rust_ops(path, content),
        Recognizer::Kotlin => dotted_lang_ops(path, content, BraceLanguage::Kotlin, "import "@),
        Recognizer::Csharp => dotted_lang_ops(path, content, BraceLanguage::Csharp, "using "@),
        Recognizer::Sql => sql_scan(lines(content), path).ops,
        Recognizer::Prisma => prisma_scan(lines(content), path).ops,
        Recognizer::Cpp => line_import_lang_ops(path, content, BraceLanguage::Cpp, ImportStyle::Cpp, ""@),
        Recognizer::Swift => line_import_lang_ops(path, content, BraceLanguage::Swift, ImportStyle::Simple, "import "@),
        Recognizer::Php => line_import_lang_ops(path, content, BraceLanguage::Php, ImportStyle::Php, ""@),
        Recognizer::Ruby => ruby_ops(path, content),
        Recognizer::Scala => line_import_lang_ops(path, content, BraceLanguage::Scala, ImportStyle::Simple, "import "@),
        Recognizer::Dart => line_import_lang_ops(path, content, BraceLanguage::Dart, ImportStyle::Simple, "import "@),
        Recognizer::Manifest => manifest_ops(path, content),
        Recognizer::Unparsed => Seq::empty(),
    }
}

/// Chooses the recognizer for a file with this lower-case extension and relative path.
pub fn recognizer_of(ext: &[char], relative: &str) -> (r: Recognizer)
    ensures
        r == recognizer_for(ext@, relative@),
{
    if eq_lit(ext, "ts") || eq_lit(ext, "tsx") || eq_lit(ext, "js") || eq_lit(ext, "jsx") || eq_lit(ext, "mjs")
        || eq_lit(ext, "cjs") {
        Recognizer::Typescript
    } else if eq_lit(ext, "py") {
        Recognizer::Python
    } else if eq_lit(ext, "java") {
        Recognizer::Java
    } else if eq_lit(ext, "go") {
        Recognizer::Go
    } else if eq_lit(ext, "rs") {
        Recognizer::Rust
    } else if eq_lit(ext, "kt") || eq_lit(ext, "kts") {
        Recognizer::Kotlin
    } else if eq_lit(ext, "cs") {
        Recognizer::Csharp
    } else if eq_lit(ext, "sql") {
        Recognizer::Sql
    } else if eq_lit(ext, "prisma") {
        Recognizer::Prisma
    } else if eq_lit(ext, "c") || eq_lit(ext, "cc") || eq_lit(ext, "cpp") || eq_lit(ext, "cxx") || eq_lit(ext, "h")
        || eq_lit(ext, "hpp") || eq_lit(ext, "hh") || eq_lit(ext, "hxx") {
        Recognizer::Cpp
    } else if eq_lit(ext, "swift") {
        Recognizer::Swift
    } else if eq_lit(ext, "php") {
        Recognizer::Php
    } else if eq_lit(ext, "rb") {
        Recognizer::Ruby
    } else if eq_lit(ext, "scala") || eq_lit(ext, "sc") {
        Recognizer::Scala
    } else if eq_lit(ext, "dart") {
        Recognizer::Dart
    } else if eq_lit(ext, "json") || eq_lit(ext, "toml") || eq_lit(ext, "yaml") || eq_lit(ext, "yml") {
        Recognizer::Manifest
    } else {
        let rel = chars_of(relative);
        let a = chars_of("go.mod");
        let b = chars_of("pom.xml");
        let c = chars_of("build.gradle");
        let d = chars_of("Gemfile");
        if ends_with(rel.as_slice(), a.as_slice()) || ends_with(rel.as_slice(), b.as_slice())
            || ends_with(rel.as_slice(), c.as_slice()) || ends_with(rel.as_slice(), d.as_slice()) {
            Recognizer::Manifest
        } else {
            Recognizer::Unparsed
        }
    }
}

/// A source file that was read: its file name, its path relative to the
/// scanned root (with `/` separators), and its text.
pub struct SourceFile {
    pub file_name: String,
    pub relative: String,
    pub content: String,
}

/// The recognizer a source file goes to.
pub open spec fn source_recognizer(f: SourceFile) -> Recognizer {
    recognizer_for(extension_key(f.file_name@), f.relative@)
}

/// The graph updates a source file makes.
pub open spec fn source_ops(f: SourceFile) -> Seq<OpView> {
    recognizer_ops(source_recognizer(f), f.relative@, f.content@)
}

/// Whether a source file can be parsed without the SQL table reader cutting a
/// character in two.
pub open spec fn source_ok(f: SourceFile) -> bool {
    source_recognizer(f) == Recognizer::Sql ==> !sql_panics(f.content@)
}

/// The view of an empty graph.
pub open spec fn empty_view() -> GraphView {
    GraphView { nodes: Seq::empty(), edges: Seq::empty(), members: Map::empty() }
}

/// The graph that parsing these files in order gives.
pub open spec fn scan_view(files: Seq<SourceFile>) -> GraphView
    decreases files.len(),
{
    if files.len() == 0 {
        empty_view()
    } else {
        apply_all(scan_view(files.drop_last()), source_ops(files.last()))
    }
}

/// Whether parsing this file would hit the SQL table reader's character cut.
pub fn source_would_panic(file: &SourceFile) -> (r: bool)
    ensures
        r == !source_ok(*file),
{
    let e = extension_of(file.file_name.as_str());
    let ev = chars_of(e.as_str());
    let rec = recognizer_of(ev.as_slice(), file.relative.as_str());
    match rec {
        Recognizer::Sql => sql_would_panic(file.content.as_str()),
        _ => false,
    }
}

/// Parses one source file into the graph with the recognizer its name selects.
pub fn parse_source(graph: &mut Graph, file: &SourceFile)
    requires
        source_ok(*file),
    ensures
        graph_view(*final(graph)) == apply_all(graph_view(*old(graph)), source_ops(*file)),
{
    let e = extension_of(file.file_name.as_str());
    let ev = chars_of(e.as_str());
    let path = file.relative.as_str();
    let content = file.content.as_str();
    let rec = recognizer_of(ev.as_slice(), path);
    match rec {
        Recognizer::Typescript => parse_typescript(graph, path, content),
        Recognizer::Python => parse_python(graph, path, content),
        Recognizer::Java => parse_java(graph, path, content),
        Recognizer::Go => parse_go(graph, path, content),
        Recognizer::Rust => parse_rust(graph, path, content),
        Recognizer::Kotlin => parse_kotlin(graph, path, content),
        Recognizer::Csharp => parse_csharp(graph, path, content),
        Recognizer::Sql => parse_sql(graph, path, content),
        Recognizer::Prisma => parse_prisma(graph, path, content),
        Recognizer::Cpp => parse_cpp(graph, path, content),
        Recognizer::Swift => parse_swift(graph, path, content),
        Recognizer::Php => parse_php(graph, path, content),
        Recognizer::Ruby => parse_ruby(graph, path, content),
        Recognizer::Scala => parse_scala(graph, path, content),
        Recognizer::Dart => parse_dart(graph, path, content),
        Recognizer::Manifest => parse_manifest(graph, path, content),
        Recognizer::Unparsed => {},
    }
}

/// Parses the files of a repository, in the order given, into a new graph.
pub fn parse_repository(files: &Vec<SourceFile>) -> (r: Graph)
    requires
        forall|i: int| 0 <= i < files@.len() ==> source_ok(#[trigger] files@[i]),
    ensures
        graph_view(r) == scan_view(files@),
{
    let mut graph = Graph::new();
    proof {
        let g = graph_view(graph);
        assert(g.nodes =~= Seq::<(Seq<char>, crate::model::NodeView)>::empty());
        assert(g.edges =~= Seq::<crate::model::EdgeView>::empty());
        assert(g.members =~= Map::<Seq<char>, Seq<crate::model::MemberView>>::empty());
        assert(files@.take(0) =~= Seq::<SourceFile>::empty());
    }
    let mut i: usize = 0;
    while i < files.len()
        invariant
            i <= files@.len(),
            forall|j: int| 0 <= j < files@.len() ==> source_ok(#[trigger] files@[j]),
            graph_view(graph) == scan_view(files@.take(i as int)),
        decreases files.len() - i,
    {
        parse_source(&mut graph, &files[i]);
        assert(files@.take(i + 1).drop_last() =~= files@.take(i as int));
        i += 1;
    }
    assert(files@.take(files@.len() as int) =~= files@);
    graph
}

/// Parses all supported source files of a workspace into a graph.
pub fn parse_workspace(files: &Vec<SourceFile>) -> (r: Graph)
    requires
        forall|i: int| 0 <= i < files@.len() ==> source_ok(#[trigger] files@[i]),
    ensures
        graph_view(r) == scan_view(files@),
{
    parse_repository(files)
}

/// What `String::from_utf8_lossy` makes of these bytes.
pub uninterp spec fn lossy_utf8(bytes: Seq<u8>) -> Seq<char>;

/// Decodes bytes with `String::from_utf8_lossy`, which puts U+FFFD in place of
/// each invalid sequence. Claimed: the text is `lossy_utf8` of the bytes;
/// valid UTF-8 comes back as the characters it encodes; bytes that are all
/// ASCII give the same characters. Which replacement characters stand for an
/// invalid sequence is left unsaid.
#[verifier::external_body]
fn decode_lossy(bytes: &[u8]) -> (r: String)
    ensures
        r@ == lossy_utf8(bytes@),
        valid_utf8(bytes@) ==> r@ == decode_utf8(bytes@),
        (forall|i: int| 0 <= i < bytes@.len() ==> bytes@[i] < 128) ==> r@ == bytes@.map_values(|b: u8| b as char),
{
    String::from_utf8_lossy(bytes).into_owned()
}

/// Whether one of the first 4096 bytes is zero (the mark of a binary file).
pub open spec fn looks_binary(bytes: Seq<u8>) -> bool {
    exists|i: int| 0 <= i < bytes.len() && i < 4096 && bytes[i] == 0
}

/// The text of a file's bytes: none for a binary file, else the bytes decoded
/// as UTF-8 with invalid sequences replaced.
pub fn decode_source(bytes: &[u8]) -> (r: Option<String>)
    ensures
        r is None <==> looks_binary(bytes@),
        r matches Some(s) ==> s@ == lossy_utf8(bytes@),
        (r is Some && valid_utf8(bytes@)) ==> r->0@ == decode_utf8(bytes@),
        (r is Some && forall|i: int| 0 <= i < bytes@.len() ==> bytes@[i] < 128) ==> r->0@ == bytes@.map_values(
            |b: u8| b as char,
        ),
{
    let mut i: usize = 0;
    while i < bytes.len() && i < 4096
        invariant
            i <= bytes@.len(),
            i <= 4096,
            forall|j: int| 0 <= j < i ==> bytes@[j] != 0,
        decreases bytes.len() - i,
    {
        if bytes[i] == 0 {
            return None;
        }
        i += 1;
    }
    Some(decode_lossy(bytes))
}

/// Daemon status returned by the local development server.
#[derive(Clone, Debug, PartialEq, Eq)]
pub struct DaemonStatus {
    /// Workspace path being served.
    pub workspace: String,
    /// Number of parsed nodes currently available.
    pub nodes: usize,
}

/// One deterministic scan cycle of the daemon over the files read from a workspace.
pub fn serve_once(workspace: &str, files: &Vec<SourceFile>) -> (r: DaemonStatus)
    requires
        forall|i: int| 0 <= i < files@.len() ==> source_ok(#[trigger] files@[i]),
    ensures
        r.workspace@ == workspace@,
        r.nodes == scan_view(files@).nodes.len(),
{
    let graph = parse_repository(files);
    let n = graph.nodes.len();
    DaemonStatus { workspace: crate::text::owned(workspace), nodes: n }
}

} // verus!
