//! The table of languages and file types the local parser recognizes.
use crate::model::LanguageSupport;
use vstd::prelude::*;

verus! {

/// One row of the language table: name, extensions, what is extracted.
pub open spec fn language_row(l: LanguageSupport) -> (Seq<char>, Seq<Seq<char>>, Seq<char>) {
    (l.name@, l.extensions@.map_values(|e: &str| e@), l.extracts@)
}

/// The language table, in display order.
pub open spec fn language_table() -> Seq<(Seq<char>, Seq<Seq<char>>, Seq<char>)> {
    seq![
        ("TypeScript / JavaScript"@, seq!["ts"@, "tsx"@, "js"@, "jsx"@, "mjs"@, "cjs"@], "classes, interfaces, members, imports, extends, implements"@),
        ("Python"@, seq!["py"@], "classes, base classes, Django-style model relations"@),
        ("Java"@, seq!["java"@], "classes, interfaces, members, Spring/JPA annotations, imports, implements"@),
        ("Go"@, seq!["go"@], "structs, interfaces, fields, functions, qualified type references"@),
        ("Rust"@, seq!["rs"@], "structs, enums, traits, impls, fields, use imports"@),
        ("Kotlin"@, seq!["kt"@, "kts"@], "classes, interfaces, objects, members, imports, inheritance"@),
        ("C#"@, seq!["cs"@], "classes, interfaces, structs, records, members, using imports, inheritance"@),
        ("C / C++"@, seq!["c"@, "cc"@, "cpp"@, "cxx"@, "h"@, "hpp"@, "hh"@, "hxx"@], "classes, structs, members, includes, inheritance"@),
        ("Swift"@, seq!["swift"@], "classes, structs, protocols, actors, members, imports"@),
        ("PHP"@, seq!["php"@], "classes, interfaces, traits, members, use imports, inheritance"@),
        ("Ruby"@, seq!["rb"@], "classes, modules, methods, requires, inheritance"@),
        ("Scala"@, seq!["scala"@, "sc"@], "classes, traits, objects, members, imports"@),
        ("Dart"@, seq!["dart"@], "classes, mixins, members, imports, extends/implements/with"@),
        ("Prisma"@, seq!["prisma"@], "models and relations"@),
        ("SQL"@, seq!["sql"@], "tables and foreign-key references"@),
        ("Manifests"@, seq!["json"@, "toml"@, "yaml"@, "yml"@], "package/config files plus npm and Cargo dependency edges"@),
    ]
}

fn row(name: &'static str, extensions: &'static [&'static str], extracts: &'static str) -> (r: LanguageSupport)
    ensures
        r.name == name,
        r.extensions == extensions,
        r.extracts == extracts,
{
    LanguageSupport { name, extensions, extracts }
}

/// Returns the languages and file types recognized by the local parser.
pub fn supported_languages() -> (r: Vec<LanguageSupport>)
    ensures
        r@.map_values(|l: LanguageSupport| language_row(l)) == language_table(),
{
    let mut v: Vec<LanguageSupport> = Vec::new();
    v.push(row("TypeScript / JavaScript", &["ts", "tsx", "js", "jsx", "mjs", "cjs"], "classes, interfaces, members, imports, extends, implements"));
    v.push(row("Python", &["py"], "classes, base classes, Django-style model relations"));
    v.push(row("Java", &["java"], "classes, interfaces, members, Spring/JPA annotations, imports, implements"));
    v.push(row("Go", &["go"], "structs, interfaces, fields, functions, qualified type references"));
    v.push(row("Rust", &["rs"], "structs, enums, traits, impls, fields, use imports"));
    v.push(row("Kotlin", &["kt", "kts"], "classes, interfaces, objects, members, imports, inheritance"));
    v.push(row("C#", &["cs"], "classes, interfaces, structs, records, members, using imports, inheritance"));
    v.push(row("C / C++", &["c", "cc", "cpp", "cxx", "h", "hpp", "hh", "hxx"], "classes, structs, members, includes, inheritance"));
    v.push(row("Swift", &["swift"], "classes, structs, protocols, actors, members, imports"));
    v.push(row("PHP", &["php"], "classes, interfaces, traits, members, use imports, inheritance"));
    v.push(row("Ruby", &["rb"], "classes, modules, methods, requires, inheritance"));
    v.push(row("Scala", &["scala", "sc"], "classes, traits, objects, members, imports"));
    v.push(row("Dart", &["dart"], "classes, mixins, members, imports, extends/implements/with"));
    v.push(row("Prisma", &["prisma"], "models and relations"));
    v.push(row("SQL", &["sql"], "tables and foreign-key references"));
    v.push(row("Manifests", &["json", "toml", "yaml", "yml"], "package/config files plus npm and Cargo dependency edges"));
    assert(v@.map_values(|l: LanguageSupport| language_row(l)) =~~= language_table());
    v
}

} // verus!
