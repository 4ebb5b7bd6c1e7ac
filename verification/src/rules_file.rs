//! The small `apex.rules.yaml` schema: a list of rules, each opened by a
//! `- id:` line and refined by `id:`, `type:`, `from:`, `to:` and `enabled:` lines.
use crate::model::{RuleDefinition, RuleView};
use crate::rules::rule_views;
use crate::strs::{in_set, lines, lines_of, seqs_view, strip_prefix, strip_prefix_str, trim, trim_by, trim_set, trim_start_lit, trim_start_str, trim_ws};
use crate::text::{chars_of, eq_lit, has_prefix, starts_with, string_of};
use vstd::prelude::*;

verus! {

broadcast use vstd::string::group_string_axioms;

/// A YAML scalar as the rule reader takes it: trimmed, then without the quotes
/// and spaces at either end.
pub open spec fn yaml_value(v: Seq<char>) -> Seq<char> {
    trim_by(trim(v), in_set(seq!['"', '\'', ' ']))
}

/// The value of a YAML scalar.
pub fn yaml_scalar(v: &[char]) -> (r: Vec<char>)
    ensures
        r@ == yaml_value(v@),
{
    let t = trim_ws(v);
    let set: Vec<char> = vec!['"', '\'', ' '];
    assert(set@ =~= seq!['"', '\'', ' ']);
    trim_set(t.as_slice(), set.as_slice())
}

/// The rule a `- id:` line opens.
pub open spec fn fresh_rule(id: Seq<char>) -> RuleView {
    RuleView { id, rule_type: Seq::empty(), from: None, to: None, enabled: true }
}

/// A rule after one of its field lines (already trimmed).
pub open spec fn rule_field(r: RuleView, t: Seq<char>) -> RuleView {
    match strip_prefix(t, "id:"@) {
        Some(v) => RuleView { id: yaml_value(v), ..r },
        None => match strip_prefix(t, "type:"@) {
            Some(v) => RuleView { rule_type: yaml_value(v), ..r },
            None => match strip_prefix(t, "from:"@) {
                Some(v) => RuleView { from: Some(yaml_value(v)), ..r },
                None => match strip_prefix(t, "to:"@) {
                    Some(v) => RuleView { to: Some(yaml_value(v)), ..r },
                    None => match strip_prefix(t, "enabled:"@) {
                        Some(v) => RuleView { enabled: yaml_value(v) != "false"@, ..r },
                        None => r,
                    },
                },
            },
        },
    }
}

/// The rules read so far and the rule being read.
pub struct RulesScan {
    pub rules: Seq<RuleView>,
    pub current: Option<RuleView>,
}

/// `s` with the rule `o` appended when there is one.
pub open spec fn push_opt(s: Seq<RuleView>, o: Option<RuleView>) -> Seq<RuleView> {
    match o {
        Some(r) => s.push(r),
        None => s,
    }
}

/// One line of a rules file.
pub open spec fn rules_line(st: RulesScan, line: Seq<char>) -> RulesScan {
    let t = trim(line);
    if has_prefix(t, "- id:"@) {
        RulesScan {
            rules: push_opt(st.rules, st.current),
            current: Some(fresh_rule(yaml_value(trim_start_lit(t, "- id:"@)))),
        }
    } else {
        match st.current {
            Some(r) => RulesScan { rules: st.rules, current: Some(rule_field(r, t)) },
            None => st,
        }
    }
}

/// The lines of a rules file read in order.
pub open spec fn rules_scan(ls: Seq<Seq<char>>) -> RulesScan
    decreases ls.len(),
{
    if ls.len() == 0 {
        RulesScan { rules: Seq::empty(), current: None }
    } else {
        rules_line(rules_scan(ls.drop_last()), ls.last())
    }
}

/// Whether a rule has both an id and a type.
pub open spec fn complete_rule(r: RuleView) -> bool {
    r.id.len() > 0 && r.rule_type.len() > 0
}

/// The complete rules of `s`, in order.
pub open spec fn complete_rules(s: Seq<RuleView>) -> Seq<RuleView>
    decreases s.len(),
{
    if s.len() == 0 {
        Seq::empty()
    } else if complete_rule(s.last()) {
        complete_rules(s.drop_last()).push(s.last())
    } else {
        complete_rules(s.drop_last())
    }
}

/// The rules a rules file defines: every rule read, the last one included,
/// that has both an id and a type.
pub open spec fn parsed_rules(content: Seq<char>) -> Seq<RuleView> {
    let st = rules_scan(lines(content));
    complete_rules(push_opt(st.rules, st.current))
}

/// A rule after one of its field lines (already trimmed).
fn apply_field(r: RuleDefinition, t: &[char]) -> (out: RuleDefinition)
    ensures
        out@ == rule_field(r@, t@),
{
    let mut r = r;
    if let Some(v) = strip_prefix_str(t, "id:") {
        r.id = string_of(yaml_scalar(v.as_slice()).as_slice());
    } else if let Some(v) = strip_prefix_str(t, "type:") {
        r.rule_type = string_of(yaml_scalar(v.as_slice()).as_slice());
    } else if let Some(v) = strip_prefix_str(t, "from:") {
        r.from = Some(string_of(yaml_scalar(v.as_slice()).as_slice()));
    } else if let Some(v) = strip_prefix_str(t, "to:") {
        r.to = Some(string_of(yaml_scalar(v.as_slice()).as_slice()));
    } else if let Some(v) = strip_prefix_str(t, "enabled:") {
        let y = yaml_scalar(v.as_slice());
        r.enabled = !eq_lit(y.as_slice(), "false");
    }
    r
}

proof fn lemma_complete_push(s: Seq<RuleView>, r: RuleView)
    ensures
        complete_rules(s.push(r)) == if complete_rule(r) {
            complete_rules(s).push(r)
        } else {
            complete_rules(s)
        },
{
    assert(s.push(r).drop_last() =~= s);
}

/// Appends `c` to `out` when it is a complete rule.
fn keep_complete(out: &mut Vec<RuleDefinition>, c: RuleDefinition)
    ensures
        rule_views(final(out)@) == if complete_rule(c@) {
            rule_views(old(out)@).push(c@)
        } else {
            rule_views(old(out)@)
        },
{
    if !c.id.as_str().is_empty() && !c.rule_type.as_str().is_empty() {
        let ghost cv = c@;
        out.push(c);
        assert(rule_views(out@) =~= rule_views(old(out)@).push(cv));
    }
}

/// Reads the rules of an `apex.rules.yaml` text; rules without an id or a
/// type are left out.
pub fn parse_rules(content: &str) -> (r: Vec<RuleDefinition>)
    ensures
        rule_views(r@) == parsed_rules(content@),
{
    let cv = chars_of(content);
    let ls = lines_of(cv.as_slice());
    let ghost lv = seqs_view(ls@);
    let mut out: Vec<RuleDefinition> = Vec::new();
    let mut current: Option<RuleDefinition> = None;
    let mut i: usize = 0;
    let opener = chars_of("- id:");
    assert(lv.take(0) =~= Seq::<Seq<char>>::empty());
    while i < ls.len()
        invariant
            i <= ls@.len(),
            lv == seqs_view(ls@),
            lv == lines(content@),
            opener@ == "- id:"@,
            rule_views(out@) == complete_rules(rules_scan(lv.take(i as int)).rules),
            match current {
                Some(c) => rules_scan(lv.take(i as int)).current == Some(c@),
                None => rules_scan(lv.take(i as int)).current is None,
            },
        decreases ls.len() - i,
    {
        assert(lv.take(i + 1).drop_last() =~= lv.take(i as int));
        assert(lv[i as int] == ls@[i as int]@);
        let t = trim_ws(ls[i].as_slice());
        if starts_with(t.as_slice(), opener.as_slice()) {
            let cur = current;
            match cur {
                Some(c) => {
                    proof {
                        lemma_complete_push(rules_scan(lv.take(i as int)).rules, c@);
                    }
                    keep_complete(&mut out, c);
                },
                None => {},
            }
            let idv = trim_start_str(t.as_slice(), "- id:");
            let id = string_of(yaml_scalar(idv.as_slice()).as_slice());
            current = Some(RuleDefinition { id, rule_type: String::new(), from: None, to: None, enabled: true });
            assert(current->0@.rule_type =~= Seq::<char>::empty());
        } else {
            let cur = current;
            current = match cur {
                Some(c) => Some(apply_field(c, t.as_slice())),
                None => None,
            };
        }
        i += 1;
    }
    assert(lv.take(lv.len() as int) =~= lv);
    let last = current;
    match last {
        Some(c) => {
            proof {
                lemma_complete_push(rules_scan(lv).rules, c@);
            }
            keep_complete(&mut out, c);
        },
        None => {},
    }
    out
}

} // verus!
