//! The text the `apex` command prints: the command chosen by the first
//! argument, rule and violation lines, the rules template and explanations,
//! the language list and the daemon's status line.
use crate::model::{opt_view, LanguageSupport, RuleDefinition, RuleView, Violation, ViolationView};
use crate::languages::language_row;
use crate::render::{decimal, push_decimal};
use crate::scan::DaemonStatus;
use crate::text::{chars_of, eq_lit, owned, push_all, push_str, string_of, strs_view};
use vstd::prelude::*;

verus! {

broadcast use vstd::string::group_string_axioms;

/// The `apex` commands.
pub enum Command {
    Init,
    /// Scan the repository at this path (default `.`).
    Scan(String),
    /// `check` with its remaining arguments.
    Check(Vec<String>),
    /// Run one daemon scan of the repository at this path (default `.`).
    Serve(String),
    /// `export` or `diagram` with the remaining arguments.
    Export(Vec<String>),
    /// `ui` with its remaining arguments.
    Ui(Vec<String>),
    /// `rules` with its remaining arguments.
    Rules(Vec<String>),
    /// `metrics` with its remaining arguments.
    Metrics(Vec<String>),
    Languages,
    Capabilities,
    Docs,
    Help,
    /// A word that is no command.
    Unknown(String),
}

/// A command read as plain values.
pub enum CommandView {
    Init,
    Scan(Seq<char>),
    Check(Seq<Seq<char>>),
    Serve(Seq<char>),
    Export(Seq<Seq<char>>),
    Ui(Seq<Seq<char>>),
    Rules(Seq<Seq<char>>),
    Metrics(Seq<Seq<char>>),
    Languages,
    Capabilities,
    Docs,
    Help,
    Unknown(Seq<char>),
}

impl View for Command {
    type V = CommandView;

    open spec fn view(&self) -> CommandView {
        match self {
            Command::Init => CommandView::Init,
            Command::Scan(p) => CommandView::Scan(p@),
            Command::Check(a) => CommandView::Check(strs_view(a@)),
            Command::Serve(p) => CommandView::Serve(p@),
            Command::Export(a) => CommandView::Export(strs_view(a@)),
            Command::Ui(a) => CommandView::Ui(strs_view(a@)),
            Command::Rules(a) => CommandView::Rules(strs_view(a@)),
            Command::Metrics(a) => CommandView::Metrics(strs_view(a@)),
            Command::Languages => CommandView::Languages,
            Command::Capabilities => CommandView::Capabilities,
            Command::Docs => CommandView::Docs,
            Command::Help => CommandView::Help,
            Command::Unknown(w) => CommandView::Unknown(w@),
        }
    }
}

/// The path argument after the command word, `.` when there is none.
pub open spec fn path_arg(rest: Seq<Seq<char>>) -> Seq<char> {
    if rest.len() > 0 {
        rest[0]
    } else {
        "."@
    }
}

/// The command that the arguments (without the program name) call for: none
/// is help; the first word names the command and the rest are its arguments.
pub open spec fn command_for(args: Seq<Seq<char>>) -> CommandView {
    if args.len() == 0 {
        CommandView::Help
    } else {
        let c = args[0];
        let rest = args.skip(1);
        if c == "init"@ {
            CommandView::Init
        } else if c == "scan"@ {
            CommandView::Scan(path_arg(rest))
        } else if c == "check"@ {
            CommandView::Check(rest)
        } else if c == "serve"@ {
            CommandView::Serve(path_arg(rest))
        } else if c == "export"@ || c == "diagram"@ {
            CommandView::Export(rest)
        } else if c == "ui"@ {
            CommandView::Ui(rest)
        } else if c == "rules"@ {
            CommandView::Rules(rest)
        } else if c == "metrics"@ {
            CommandView::Metrics(rest)
        } else if c == "languages"@ {
            CommandView::Languages
        } else if c == "capabilities"@ {
            CommandView::Capabilities
        } else if c == "docs"@ {
            CommandView::Docs
        } else if c == "--help"@ || c == "-h"@ || c == "help"@ {
            CommandView::Help
        } else {
            CommandView::Unknown(c)
        }
    }
}

fn rest_of(args: &Vec<String>) -> (r: Vec<String>)
    requires
        args@.len() > 0,
    ensures
        strs_view(r@) == strs_view(args@).skip(1),
{
    let mut out: Vec<String> = Vec::new();
    let mut i: usize = 1;
    while i < args.len()
        invariant
            1 <= i <= args@.len(),
            strs_view(out@) == strs_view(args@).subrange(1, i as int),
        decreases args.len() - i,
    {
        let ghost before = strs_view(out@);
        out.push(args[i].clone());
        assert(strs_view(out@) =~= before.push(args@[i as int]@));
        assert(strs_view(args@).subrange(1, i + 1) =~= strs_view(args@).subrange(1, i as int).push(args@[i as int]@));
        i += 1;
    }
    assert(strs_view(args@).subrange(1, args@.len() as int) =~= strs_view(args@).skip(1));
    out
}

/// Chooses the command from the arguments (without the program name).
pub fn command_of(args: Vec<String>) -> (r: Command)
    ensures
        r@ == command_for(strs_view(args@)),
{
    if args.len() == 0 {
        return Command::Help;
    }
    let c = chars_of(args[0].as_str());
    let w = c.as_slice();
    assert(strs_view(args@)[0] == c@);
    let rest = rest_of(&args);
    let path = if rest.len() > 0 {
        assert(strs_view(rest@)[0] == rest@[0]@);
        rest[0].clone()
    } else {
        owned(".")
    };
    if eq_lit(w, "init") {
        Command::Init
    } else if eq_lit(w, "scan") {
        Command::Scan(path)
    } else if eq_lit(w, "check") {
        Command::Check(rest)
    } else if eq_lit(w, "serve") {
        Command::Serve(path)
    } else if eq_lit(w, "export") || eq_lit(w, "diagram") {
        Command::Export(rest)
    } else if eq_lit(w, "ui") {
        Command::Ui(rest)
    } else if eq_lit(w, "rules") {
        Command::Rules(rest)
    } else if eq_lit(w, "metrics") {
        Command::Metrics(rest)
    } else if eq_lit(w, "languages") {
        Command::Languages
    } else if eq_lit(w, "capabilities") {
        Command::Capabilities
    } else if eq_lit(w, "docs") {
        Command::Docs
    } else if eq_lit(w, "--help") || eq_lit(w, "-h") || eq_lit(w, "help") {
        Command::Help
    } else {
        Command::Unknown(args[0].clone())
    }
}

/// The message for a word that is no command.
pub fn unknown_command(word: &str) -> (r: String)
    ensures
        r@ == "unknown command '"@ + word@ + "'"@,
{
    let mut out: Vec<char> = Vec::new();
    push_str(&mut out, "unknown command '");
    push_str(&mut out, word);
    push_str(&mut out, "'");
    assert(out@ =~= "unknown command '"@ + word@ + "'"@);
    string_of(out.as_slice())
}

/// The `rules` subcommands.
pub enum RulesCommand {
    /// List the built-in rules.
    List,
    /// Explain the rule with this id or type.
    Explain(String),
    /// Print the rules template.
    Template,
    /// Write the rules template to this path.
    TemplateTo(String),
    /// Print the usage line.
    Help,
}

/// A rules subcommand read as plain values.
pub enum RulesView {
    List,
    Explain(Seq<char>),
    Template,
    TemplateTo(Seq<char>),
    Help,
}

impl View for RulesCommand {
    type V = RulesView;

    open spec fn view(&self) -> RulesView {
        match self {
            RulesCommand::List => RulesView::List,
            RulesCommand::Explain(i) => RulesView::Explain(i@),
            RulesCommand::Template => RulesView::Template,
            RulesCommand::TemplateTo(p) => RulesView::TemplateTo(p@),
            RulesCommand::Help => RulesView::Help,
        }
    }
}

/// The position of the first `--out` or `-o`, or the length.
pub open spec fn out_flag(args: Seq<Seq<char>>) -> int
    decreases args.len(),
{
    if args.len() == 0 {
        0
    } else if args[0] == "--out"@ || args[0] == "-o"@ {
        0
    } else {
        1 + out_flag(args.skip(1))
    }
}

/// The rules subcommand the arguments call for (`list` when there are none).
pub open spec fn rules_command(args: Seq<Seq<char>>) -> Result<RulesView, Seq<char>> {
    let c = if args.len() > 0 { args[0] } else { "list"@ };
    if c == "list"@ {
        Ok(RulesView::List)
    } else if c == "explain"@ {
        Ok(RulesView::Explain(if args.len() > 1 { args[1] } else { Seq::empty() }))
    } else if c == "template"@ {
        let k = out_flag(args);
        if k < args.len() {
            if k + 1 < args.len() {
                Ok(RulesView::TemplateTo(args[k + 1]))
            } else {
                Err("--out requires a file path"@)
            }
        } else {
            Ok(RulesView::Template)
        }
    } else if c == "--help"@ || c == "-h"@ || c == "help"@ {
        Ok(RulesView::Help)
    } else {
        Err("unknown rules command '"@ + c + "'"@)
    }
}

proof fn lemma_out_flag(args: Seq<Seq<char>>, i: int)
    requires
        0 <= i <= args.len(),
        forall|j: int| 0 <= j < i ==> args[j] != "--out"@ && args[j] != "-o"@,
        i == args.len() || args[i] == "--out"@ || args[i] == "-o"@,
    ensures
        out_flag(args) == i,
    decreases i,
{
    if i > 0 {
        assert forall|j: int| 0 <= j < i - 1 implies args.skip(1)[j] != "--out"@ && args.skip(1)[j] != "-o"@ by {
            assert(args.skip(1)[j] == args[j + 1]);
        }
        if i < args.len() {
            assert(args.skip(1)[i - 1] == args[i]);
        }
        lemma_out_flag(args.skip(1), i - 1);
    }
}

/// Chooses the rules subcommand.
pub fn rules_command_of(args: &Vec<String>) -> (r: Result<RulesCommand, String>)
    ensures
        match r {
            Ok(c) => rules_command(strs_view(args@)) == Ok::<RulesView, Seq<char>>(c@),
            Err(e) => rules_command(strs_view(args@)) == Err::<RulesView, Seq<char>>(e@),
        },
{
    let ghost a = strs_view(args@);
    let c = if args.len() > 0 {
        assert(a[0] == args@[0]@);
        args[0].clone()
    } else {
        owned("list")
    };
    let cv = chars_of(c.as_str());
    let w = cv.as_slice();
    if eq_lit(w, "list") {
        Ok(RulesCommand::List)
    } else if eq_lit(w, "explain") {
        if args.len() > 1 {
            assert(a[1] == args@[1]@);
            Ok(RulesCommand::Explain(args[1].clone()))
        } else {
            let e = String::new();
            assert(e@ =~= Seq::<char>::empty());
            Ok(RulesCommand::Explain(e))
        }
    } else if eq_lit(w, "template") {
        let mut k: usize = 0;
        while k < args.len()
            invariant
                k <= args@.len(),
                a == strs_view(args@),
                forall|j: int| 0 <= j < k ==> a[j] != "--out"@ && a[j] != "-o"@,
            ensures
                k <= args@.len(),
                a == strs_view(args@),
                forall|j: int| 0 <= j < k ==> a[j] != "--out"@ && a[j] != "-o"@,
                k == args@.len() || a[k as int] == "--out"@ || a[k as int] == "-o"@,
            decreases args.len() - k,
        {
            let x = chars_of(args[k].as_str());
            assert(a[k as int] == x@);
            if eq_lit(x.as_slice(), "--out") || eq_lit(x.as_slice(), "-o") {
                break;
            }
            k += 1;
        }
        proof {
            lemma_out_flag(a, k as int);
        }
        if k < args.len() {
            if k + 1 < args.len() {
                assert(a[k + 1] == args@[k + 1]@);
                Ok(RulesCommand::TemplateTo(args[k + 1].clone()))
            } else {
                Err(owned("--out requires a file path"))
            }
        } else {
            Ok(RulesCommand::Template)
        }
    } else if eq_lit(w, "--help") || eq_lit(w, "-h") || eq_lit(w, "help") {
        Ok(RulesCommand::Help)
    } else {
        let mut out: Vec<char> = Vec::new();
        push_str(&mut out, "unknown rules command '");
        push_all(&mut out, w);
        push_str(&mut out, "'");
        assert(out@ =~= "unknown rules command '"@ + c@ + "'"@);
        Err(string_of(out.as_slice()))
    }
}

/// The starter `apex.rules.yaml`.
pub open spec fn template_text() -> Seq<char> {
    "version: 1\nrules:\n  - id: RULE-LAYER-001\n    type: forbidden_import\n    from: api\n    to: infrastructure\n    enabled: true\n  - id: RULE-CYCLE-001\n    type: import_cycle\n    enabled: true\n"@
}

/// The starter `apex.rules.yaml`: the layer rule and the cycle rule, enabled.
pub fn rules_template() -> (r: &'static str)
    ensures
        r@ == template_text(),
{
    "version: 1\nrules:\n  - id: RULE-LAYER-001\n    type: forbidden_import\n    from: api\n    to: infrastructure\n    enabled: true\n  - id: RULE-CYCLE-001\n    type: import_cycle\n    enabled: true\n"
}

/// The explanation of a rule, by id or type.
pub open spec fn explanation(id: Seq<char>) -> Seq<char> {
    if id == "RULE-LAYER-001"@ || id == "forbidden_import"@ {
        "RULE-LAYER-001 prevents one architectural layer from importing another. Configure it with type: forbidden_import, from: <layer>, to: <layer>."@
    } else if id == "RULE-CYCLE-001"@ || id == "import_cycle"@ {
        "RULE-CYCLE-001 detects import cycles in the parsed dependency graph. Configure it with type: import_cycle."@
    } else {
        "Known rules: RULE-LAYER-001, RULE-CYCLE-001"@
    }
}

/// Explains a rule named by its id or its type; names the known rules otherwise.
pub fn rule_explanation(id: &str) -> (r: &'static str)
    ensures
        r@ == explanation(id@),
{
    let v = chars_of(id);
    let w = v.as_slice();
    if eq_lit(w, "RULE-LAYER-001") || eq_lit(w, "forbidden_import") {
        "RULE-LAYER-001 prevents one architectural layer from importing another. Configure it with type: forbidden_import, from: <layer>, to: <layer>."
    } else if eq_lit(w, "RULE-CYCLE-001") || eq_lit(w, "import_cycle") {
        "RULE-CYCLE-001 detects import cycles in the parsed dependency graph. Configure it with type: import_cycle."
    } else {
        "Known rules: RULE-LAYER-001, RULE-CYCLE-001"
    }
}

/// A layer or `-`.
pub open spec fn or_dash(o: Option<Seq<char>>) -> Seq<char> {
    match o {
        Some(v) => v,
        None => "-"@,
    }
}

/// The listing line of a rule.
pub open spec fn rule_text(r: RuleView) -> Seq<char> {
    r.id + " ("@ + r.rule_type + ") enabled="@ + (if r.enabled { "true"@ } else { "false"@ }) + " from="@
        + or_dash(r.from) + " to="@ + or_dash(r.to)
}

fn push_or_dash(out: &mut Vec<char>, o: &Option<String>)
    ensures
        final(out)@ == old(out)@ + or_dash(opt_view(*o)),
{
    match o {
        Some(v) => push_str(out, v.as_str()),
        None => push_str(out, "-"),
    }
}

/// The listing line of a rule: id, type, whether enabled, layers.
pub fn rule_line(rule: &RuleDefinition) -> (r: String)
    ensures
        r@ == rule_text(rule@),
{
    let mut out: Vec<char> = Vec::new();
    push_str(&mut out, rule.id.as_str());
    push_str(&mut out, " (");
    push_str(&mut out, rule.rule_type.as_str());
    push_str(&mut out, ") enabled=");
    if rule.enabled {
        push_str(&mut out, "true");
    } else {
        push_str(&mut out, "false");
    }
    push_str(&mut out, " from=");
    push_or_dash(&mut out, &rule.from);
    push_str(&mut out, " to=");
    push_or_dash(&mut out, &rule.to);
    assert(out@ =~= rule_text(rule@));
    string_of(out.as_slice())
}

/// The report line of a violation.
pub open spec fn violation_text(v: ViolationView) -> Seq<char> {
    v.rule_id + ": "@ + v.message + " ("@ + v.subject + ")"@
}

/// The report line of a violation: rule, message, subject.
pub fn violation_line(v: &Violation) -> (r: String)
    ensures
        r@ == violation_text(v@),
{
    let mut out: Vec<char> = Vec::new();
    push_str(&mut out, v.rule_id.as_str());
    push_str(&mut out, ": ");
    push_str(&mut out, v.message.as_str());
    push_str(&mut out, " (");
    push_str(&mut out, v.subject.as_str());
    push_str(&mut out, ")");
    assert(out@ =~= violation_text(v@));
    string_of(out.as_slice())
}

/// The failure message of a check that found violations.
pub fn violations_summary(n: usize) -> (r: String)
    ensures
        r@ == decimal(n as nat) + " violation(s) detected"@,
{
    let mut out: Vec<char> = Vec::new();
    push_decimal(&mut out, n);
    push_str(&mut out, " violation(s) detected");
    assert(out@ =~= decimal(n as nat) + " violation(s) detected"@);
    string_of(out.as_slice())
}

/// Extensions separated by `, `.
pub open spec fn joined_extensions(s: Seq<Seq<char>>) -> Seq<char>
    decreases s.len(),
{
    if s.len() == 0 {
        Seq::empty()
    } else {
        joined_extensions(s.drop_last()) + (if s.len() > 1 { ", "@ } else { Seq::empty() }) + s.last()
    }
}

/// The listing line of a language.
pub open spec fn language_text(row: (Seq<char>, Seq<Seq<char>>, Seq<char>)) -> Seq<char> {
    "- "@ + row.0 + " ("@ + joined_extensions(row.1) + ") — "@ + row.2
}

/// The listing line of a language: name, extensions, what is extracted.
pub fn language_line(l: &LanguageSupport) -> (r: String)
    ensures
        r@ == language_text(language_row(*l)),
{
    let mut out: Vec<char> = Vec::new();
    push_str(&mut out, "- ");
    push_str(&mut out, l.name);
    push_str(&mut out, " (");
    let ghost es = l.extensions@.map_values(|e: &str| e@);
    let ghost mid = out@;
    let mut i: usize = 0;
    assert(es.take(0) =~= Seq::<Seq<char>>::empty());
    while i < l.extensions.len()
        invariant
            i <= l.extensions@.len(),
            es == l.extensions@.map_values(|e: &str| e@),
            out@ == mid + joined_extensions(es.take(i as int)),
        decreases l.extensions.len() - i,
    {
        assert(es.take(i + 1).drop_last() =~= es.take(i as int));
        assert(es[i as int] == l.extensions@[i as int]@);
        if i > 0 {
            push_str(&mut out, ", ");
        }
        push_str(&mut out, l.extensions[i]);
        assert(out@ =~= mid + joined_extensions(es.take(i + 1)));
        i += 1;
    }
    assert(es.take(es.len() as int) =~= es);
    push_str(&mut out, ") — ");
    push_str(&mut out, l.extracts);
    assert(out@ =~= language_text(language_row(*l)));
    string_of(out.as_slice())
}

/// The status line of a daemon scan.
pub open spec fn daemon_text(workspace: Seq<char>, nodes: nat) -> Seq<char> {
    "Apex daemon scan ready for "@ + workspace + " with "@ + decimal(nodes)
        + " graph nodes; run `apex ui` for the local workbench"@
}

/// The status line of a daemon scan: the workspace and its node count.
pub fn daemon_line(status: &DaemonStatus) -> (r: String)
    ensures
        r@ == daemon_text(status.workspace@, status.nodes as nat),
{
    let mut out: Vec<char> = Vec::new();
    push_str(&mut out, "Apex daemon scan ready for ");
    push_str(&mut out, status.workspace.as_str());
    push_str(&mut out, " with ");
    push_decimal(&mut out, status.nodes);
    push_str(&mut out, " graph nodes; run `apex ui` for the local workbench");
    assert(out@ =~= daemon_text(status.workspace@, status.nodes as nat));
    string_of(out.as_slice())
}

} // verus!
