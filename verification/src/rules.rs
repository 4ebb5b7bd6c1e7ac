//! Architecture rules: the built-in rule set, forbidden layer imports and
//! import cycles, reported as a sorted list of violations.
use crate::graph::{key_set, Graph};
use crate::keymap::{has_key, lemma_has_key_at_rank, lemma_insert_entry, sorted_keys, value_of, KeyMap, KeySet};
use crate::model::{
    opt_view, Edge, EdgeKind, Node, NodeView, RuleDefinition, RuleView, Violation, ViolationView,
};
use crate::text::{chars_equal, chars_of, owned, push_all, push_str, seq_lt, str_equal, string_of};
use vstd::prelude::*;

verus! {

broadcast use vstd::string::group_string_axioms;

/// `v` is the target of an import edge leaving a member of `b`.
pub open spec fn imported_from(edges: Seq<Edge>, b: Set<Seq<char>>, v: Seq<char>) -> bool {
    exists|i: int|
        0 <= i < edges.len() && edges[i].kind == EdgeKind::Imports && b.contains(edges[i].from@)
            && #[trigger] edges[i].to@ == v
}

/// `b` together with every id it imports directly.
pub open spec fn import_step(edges: Seq<Edge>, b: Set<Seq<char>>) -> Set<Seq<char>> {
    b.union(Set::new(|v: Seq<char>| imported_from(edges, b, v)))
}

/// The ids reachable from `start` along at most `k` import edges.
pub open spec fn import_ball(edges: Seq<Edge>, start: Seq<char>, k: nat) -> Set<Seq<char>>
    decreases k,
{
    if k == 0 {
        set![start]
    } else {
        import_step(edges, import_ball(edges, start, (k - 1) as nat))
    }
}

/// `b` is reachable from `a` along import edges (every id reaches itself).
pub open spec fn reaches(edges: Seq<Edge>, a: Seq<char>, b: Seq<char>) -> bool {
    exists|k: nat| #[trigger] import_ball(edges, a, k).contains(b)
}

/// The number of import edges whose target lies outside `b`.
pub open spec fn uncovered(edges: Seq<Edge>, b: Set<Seq<char>>) -> nat
    decreases edges.len(),
{
    if edges.len() == 0 {
        0
    } else {
        uncovered(edges.drop_last(), b) + if edges.last().kind == EdgeKind::Imports && !b.contains(
            edges.last().to@,
        ) {
            1nat
        } else {
            0nat
        }
    }
}

proof fn lemma_uncovered_mono(edges: Seq<Edge>, a: Set<Seq<char>>, b: Set<Seq<char>>, i: int)
    requires
        a.subset_of(b),
    ensures
        uncovered(edges, b) <= uncovered(edges, a),
        0 <= i < edges.len() && edges[i].kind == EdgeKind::Imports && !a.contains(edges[i].to@)
            && b.contains(edges[i].to@) ==> uncovered(edges, b) < uncovered(edges, a),
    decreases edges.len(),
{
    if edges.len() > 0 {
        let t = edges.drop_last();
        if 0 <= i < t.len() {
            assert(t[i] == edges[i]);
        }
        lemma_uncovered_mono(t, a, b, i);
    }
}

pub proof fn lemma_import_ball_mono(edges: Seq<Edge>, start: Seq<char>, j: nat, k: nat)
    requires
        j <= k,
    ensures
        import_ball(edges, start, j).subset_of(import_ball(edges, start, k)),
    decreases k - j,
{
    if j < k {
        lemma_import_ball_mono(edges, start, j, (k - 1) as nat);
    }
}

proof fn lemma_import_ball_fixpoint(edges: Seq<Edge>, start: Seq<char>, k: nat, j: nat)
    requires
        import_ball(edges, start, k + 1) == import_ball(edges, start, k),
        k <= j,
    ensures
        import_ball(edges, start, j) == import_ball(edges, start, k),
    decreases j - k,
{
    if j > k {
        lemma_import_ball_fixpoint(edges, start, k, (j - 1) as nat);
    }
}

proof fn lemma_import_step_mono(edges: Seq<Edge>, a: Set<Seq<char>>, b: Set<Seq<char>>)
    requires
        a.subset_of(b),
    ensures
        import_step(edges, a).subset_of(import_step(edges, b)),
{
    assert forall|v: Seq<char>| import_step(edges, a).contains(v) implies import_step(edges, b).contains(v) by {
        if imported_from(edges, a, v) {
            let i = choose|i: int|
                0 <= i < edges.len() && edges[i].kind == EdgeKind::Imports && a.contains(edges[i].from@)
                    && #[trigger] edges[i].to@ == v;
            assert(imported_from(edges, b, v));
        }
    }
}

pub proof fn lemma_import_ball_compose(edges: Seq<Edge>, a: Seq<char>, b: Seq<char>, j: nat, k: nat)
    requires
        import_ball(edges, a, j).contains(b),
    ensures
        import_ball(edges, b, k).subset_of(import_ball(edges, a, j + k)),
    decreases k,
{
    if k > 0 {
        lemma_import_ball_compose(edges, a, b, j, (k - 1) as nat);
        lemma_import_step_mono(edges, import_ball(edges, b, (k - 1) as nat), import_ball(edges, a, (j + k - 1) as nat));
        assert(import_ball(edges, a, j + k) == import_step(edges, import_ball(edges, a, (j + k - 1) as nat)));
    }
}

/// Import reachability is transitive.
pub proof fn lemma_reaches_transitive(edges: Seq<Edge>, a: Seq<char>, b: Seq<char>, c: Seq<char>)
    requires
        reaches(edges, a, b),
        reaches(edges, b, c),
    ensures
        reaches(edges, a, c),
{
    let j = choose|j: nat| #[trigger] import_ball(edges, a, j).contains(b);
    let k = choose|k: nat| #[trigger] import_ball(edges, b, k).contains(c);
    lemma_import_ball_compose(edges, a, b, j, k);
    assert(import_ball(edges, a, j + k).contains(c));
}

/// Every id reaches itself.
pub proof fn lemma_reaches_reflexive(edges: Seq<Edge>, a: Seq<char>)
    ensures
        reaches(edges, a, a),
{
    assert(import_ball(edges, a, 0).contains(a));
}

/// One round of import closure over `seen`.
fn import_round(graph: &Graph, seen: &KeySet) -> (r: (KeySet, bool))
    ensures
        sorted_keys(r.0@),
        key_set(r.0@) == import_step(graph.edges@, key_set(seen@)),
        !r.1 ==> key_set(r.0@) == key_set(seen@),
        r.1 ==> exists|i: int|
            0 <= i < graph.edges@.len() && graph.edges@[i].kind == EdgeKind::Imports
                && key_set(seen@).contains(graph.edges@[i].from@) && !key_set(seen@).contains(
                graph.edges@[i].to@,
            ),
{
    let ghost b = key_set(seen@);
    let ghost s = graph.edges@;
    let mut next = seen.key_set_copy();
    let mut changed = false;
    let mut i: usize = 0;
    while i < graph.edges.len()
        invariant
            i <= s.len(),
            s == graph.edges@,
            b == key_set(seen@),
            sorted_keys(next@),
            forall|k: Seq<char>|
                #![trigger has_key(next@, k)]
                has_key(next@, k) <==> (b.contains(k) || imported_from(s.take(i as int), b, k)),
            !changed ==> forall|k: Seq<char>| #![trigger has_key(next@, k)] has_key(next@, k) <==> b.contains(k),
            changed ==> exists|j: int|
                0 <= j < s.len() && s[j].kind == EdgeKind::Imports && b.contains(s[j].from@)
                    && !b.contains(s[j].to@),
        decreases graph.edges.len() - i,
    {
        let ghost prev = next@;
        let e = &graph.edges[i];
        let ef = chars_of(e.from.as_str());
        let et = chars_of(e.to.as_str());
        let c = e.kind == EdgeKind::Imports && seen.contains_chars(ef.as_slice());
        if c {
            if !seen.contains_chars(et.as_slice()) {
                changed = true;
            }
            next.insert(e.to.clone(), ());
            proof {
                lemma_insert_entry(prev, e.to@, ());
            }
        }
        proof {
            let a = s.take(i as int);
            let bb = s.take(i + 1);
            assert(bb[i as int] == s[i as int]);
            assert forall|k: Seq<char>|
                imported_from(bb, b, k) <==> (imported_from(a, b, k) || (c && k == s[i as int].to@)) by {
                if imported_from(bb, b, k) {
                    let j = choose|j: int|
                        0 <= j < bb.len() && bb[j].kind == EdgeKind::Imports && b.contains(bb[j].from@)
                            && #[trigger] bb[j].to@ == k;
                    if j < i {
                        assert(a[j] == bb[j]);
                    }
                }
                if imported_from(a, b, k) {
                    let j = choose|j: int|
                        0 <= j < a.len() && a[j].kind == EdgeKind::Imports && b.contains(a[j].from@)
                            && #[trigger] a[j].to@ == k;
                    assert(a[j] == bb[j]);
                }
                if c && k == s[i as int].to@ {
                    assert(bb[i as int].to@ == k);
                }
            }
            assert forall|k: Seq<char>|
                #![trigger has_key(next@, k)]
                has_key(next@, k) <==> (b.contains(k) || imported_from(bb, b, k)) by {
                assert(has_key(prev, k) <==> (b.contains(k) || imported_from(a, b, k)));
            }
            if !changed {
                assert forall|k: Seq<char>| #![trigger has_key(next@, k)] has_key(next@, k) <==> b.contains(k) by {
                    assert(has_key(prev, k) <==> b.contains(k));
                }
            }
        }
        i += 1;
    }
    proof {
        assert(s.take(s.len() as int) =~= s);
        assert forall|k: Seq<char>| key_set(next@).contains(k) == import_step(s, b).contains(k) by {
            assert(has_key(next@, k) <==> (b.contains(k) || imported_from(s, b, k)));
        }
        assert(key_set(next@) =~= import_step(s, b));
        if !changed {
            assert(key_set(next@) =~= b);
        }
    }
    (next, changed)
}

/// The ids reachable from `start` along import edges.
pub fn import_closure(graph: &Graph, start: &str) -> (r: KeySet)
    ensures
        sorted_keys(r@),
        forall|k: Seq<char>| has_key(r@, k) <==> reaches(graph.edges@, start@, k),
{
    let ghost s = graph.edges@;
    let mut seen: KeySet = KeyMap::new();
    let ghost empty = seen@;
    seen.insert(owned(start), ());
    proof {
        lemma_insert_entry(empty, start@, ());
        assert forall|k: Seq<char>| key_set(seen@).contains(k) == import_ball(s, start@, 0).contains(k) by {
            assert(has_key(seen@, k) <==> (has_key(empty, k) || k == start@));
        }
        assert(key_set(seen@) =~= import_ball(s, start@, 0));
    }
    let ghost mut depth: nat = 0;
    let mut done = false;
    while !done
        invariant
            s == graph.edges@,
            sorted_keys(seen@),
            key_set(seen@) == import_ball(s, start@, depth),
            done ==> import_ball(s, start@, depth + 1) == import_ball(s, start@, depth),
        decreases uncovered(s, key_set(seen@)) + if done { 0nat } else { 1nat },
    {
        let (next, changed) = import_round(graph, &seen);
        if !changed {
            done = true;
        } else {
            proof {
                let i = choose|i: int|
                    0 <= i < s.len() && s[i].kind == EdgeKind::Imports && key_set(seen@).contains(
                        s[i].from@,
                    ) && !key_set(seen@).contains(s[i].to@);
                assert(imported_from(s, key_set(seen@), s[i].to@));
                assert(key_set(next@).contains(s[i].to@));
                lemma_uncovered_mono(s, key_set(seen@), key_set(next@), i);
                depth = depth + 1;
            }
            seen = next;
        }
    }
    proof {
        assert forall|k: Seq<char>| has_key(seen@, k) <==> reaches(s, start@, k) by {
            if reaches(s, start@, k) {
                let j = choose|j: nat| #[trigger] import_ball(s, start@, j).contains(k);
                if j <= depth {
                    lemma_import_ball_mono(s, start@, j, depth);
                } else {
                    lemma_import_ball_fixpoint(s, start@, depth, j);
                }
            }
            if has_key(seen@, k) {
                assert(import_ball(s, start@, depth).contains(k));
            }
        }
    }
    seen
}

/// Whether `target` is reachable from `current` along import edges.
pub fn has_path(graph: &Graph, current: &str, target: &str) -> (r: bool)
    ensures
        r == reaches(graph.edges@, current@, target@),
{
    let reach = import_closure(graph, current);
    reach.contains_key(target)
}

/// Views of a list of violations.
pub open spec fn violation_views(s: Seq<Violation>) -> Seq<ViolationView> {
    s.map_values(|v: Violation| v@)
}

/// The label used for an optional layer in messages.
pub open spec fn layer_label(l: Option<Seq<char>>, default: Seq<char>) -> Seq<char> {
    match l {
        Some(x) => x,
        None => default,
    }
}

/// The message of a forbidden-import violation.
pub open spec fn forbidden_message(rule: RuleView, from: NodeView, to: NodeView) -> Seq<char> {
    layer_label(rule.from, "source"@) + " layer '"@ + from.name + "' must not import "@ + layer_label(
        rule.to,
        "target"@,
    ) + " '"@ + to.name + "'"@
}

/// The message of an import-cycle violation.
pub open spec fn cycle_message(e: Edge) -> Seq<char> {
    "import cycle detected between '"@ + e.from@ + "' and '"@ + e.to@ + "'"@
}

/// The violation a forbidden-import rule reports for one edge, if any: an import
/// edge between known nodes whose layers are the rule's source and target layers.
pub open spec fn forbidden_hit(nodes: Seq<(Seq<char>, Node)>, e: Edge, rule: RuleView) -> Option<ViolationView> {
    if e.kind == EdgeKind::Imports && has_key(nodes, e.from@) && has_key(nodes, e.to@) && value_of(
        nodes,
        e.from@,
    )@.layer == rule.from && value_of(nodes, e.to@)@.layer == rule.to {
        Some(
            ViolationView {
                rule_id: rule.id,
                message: forbidden_message(rule, value_of(nodes, e.from@)@, value_of(nodes, e.to@)@),
                subject: value_of(nodes, e.from@)@.path,
            },
        )
    } else {
        None
    }
}

/// The violation an import-cycle rule reports for one edge, if any: an import
/// edge whose target reaches back to its source.
pub open spec fn cycle_hit(all: Seq<Edge>, e: Edge, rule: RuleView) -> Option<ViolationView> {
    if e.kind == EdgeKind::Imports && reaches(all, e.to@, e.from@) {
        Some(ViolationView { rule_id: rule.id, message: cycle_message(e), subject: e.from@ })
    } else {
        None
    }
}

/// The violations one rule reports, in edge order, before sorting.
pub open spec fn rule_hits(nodes: Seq<(Seq<char>, Node)>, all: Seq<Edge>, edges: Seq<Edge>, rule: RuleView) -> Seq<ViolationView>
    decreases edges.len(),
{
    if edges.len() == 0 {
        Seq::empty()
    } else {
        let rest = rule_hits(nodes, all, edges.drop_last(), rule);
        let hit = if !rule.enabled {
            None
        } else if rule.rule_type == "forbidden_import"@ {
            forbidden_hit(nodes, edges.last(), rule)
        } else if rule.rule_type == "import_cycle"@ {
            cycle_hit(all, edges.last(), rule)
        } else {
            None
        };
        match hit {
            Some(v) => rest.push(v),
            None => rest,
        }
    }
}

/// The violations of all rules in rule order, before sorting.
pub open spec fn all_hits(nodes: Seq<(Seq<char>, Node)>, edges: Seq<Edge>, rules: Seq<RuleView>) -> Seq<ViolationView>
    decreases rules.len(),
{
    if rules.len() == 0 {
        Seq::empty()
    } else {
        all_hits(nodes, edges, rules.drop_last()) + rule_hits(nodes, edges, edges, rules.last())
    }
}

/// Views of a list of rules.
pub open spec fn rule_views(s: Seq<RuleDefinition>) -> Seq<RuleView> {
    s.map_values(|x: RuleDefinition| x@)
}

/// Violation order: by rule id, then by subject.
pub open spec fn violation_lt(a: ViolationView, b: ViolationView) -> bool {
    seq_lt(a.rule_id, b.rule_id) || (a.rule_id == b.rule_id && seq_lt(a.subject, b.subject))
}

/// Inserts `x` after every element not above it (stable insertion).
pub open spec fn insert_sorted(s: Seq<ViolationView>, x: ViolationView) -> Seq<ViolationView>
    decreases s.len(),
{
    if s.len() == 0 || !violation_lt(x, s.last()) {
        s.push(x)
    } else {
        insert_sorted(s.drop_last(), x).push(s.last())
    }
}

/// Stable sort by rule id and subject.
pub open spec fn sort_violations(s: Seq<ViolationView>) -> Seq<ViolationView>
    decreases s.len(),
{
    if s.len() == 0 {
        s
    } else {
        insert_sorted(sort_violations(s.drop_last()), s.last())
    }
}

/// Drops each violation whose rule id and subject equal those of the last one kept.
pub open spec fn dedup_violations(s: Seq<ViolationView>) -> Seq<ViolationView>
    decreases s.len(),
{
    if s.len() == 0 {
        s
    } else {
        let r = dedup_violations(s.drop_last());
        if r.len() > 0 && r.last().rule_id == s.last().rule_id && r.last().subject == s.last().subject {
            r
        } else {
            r.push(s.last())
        }
    }
}

/// The views of the built-in rules.
pub open spec fn default_rule_views() -> Seq<RuleView> {
    seq![
        RuleView {
            id: "RULE-LAYER-001"@,
            rule_type: "forbidden_import"@,
            from: Some("api"@),
            to: Some("infrastructure"@),
            enabled: true,
        },
        RuleView { id: "RULE-CYCLE-001"@, rule_type: "import_cycle"@, from: None, to: None, enabled: true },
    ]
}

/// Returns Apex's built-in rule set.
pub fn default_rules() -> (r: Vec<RuleDefinition>)
    ensures
        rule_views(r@) == default_rule_views(),
{
    let mut v: Vec<RuleDefinition> = Vec::new();
    v.push(
        RuleDefinition {
            id: owned("RULE-LAYER-001"),
            rule_type: owned("forbidden_import"),
            from: Some(owned("api")),
            to: Some(owned("infrastructure")),
            enabled: true,
        },
    );
    v.push(
        RuleDefinition {
            id: owned("RULE-CYCLE-001"),
            rule_type: owned("import_cycle"),
            from: None,
            to: None,
            enabled: true,
        },
    );
    assert(rule_views(v@) =~= default_rule_views());
    v
}

fn optional_eq(a: &Option<String>, b: &Option<String>) -> (r: bool)
    ensures
        r == (opt_view(*a) == opt_view(*b)),
{
    match (a, b) {
        (Some(x), Some(y)) => str_equal(x.as_str(), y.as_str()),
        (None, None) => true,
        _ => false,
    }
}

fn layer_label_chars(l: &Option<String>, default: &str) -> (r: Vec<char>)
    ensures
        r@ == layer_label(opt_view(*l), default@),
{
    match l {
        Some(x) => chars_of(x.as_str()),
        None => chars_of(default),
    }
}

fn forbidden_violation(nodes: &KeyMap<Node>, e: &Edge, rule: &RuleDefinition) -> (r: Option<Violation>)
    ensures
        match r {
            Some(v) => forbidden_hit(nodes@, *e, rule@) == Some(v@),
            None => forbidden_hit(nodes@, *e, rule@).is_none(),
        },
{
    if e.kind != EdgeKind::Imports {
        return None;
    }
    let from = match nodes.get(e.from.as_str()) {
        Some(n) => n,
        None => return None,
    };
    let to = match nodes.get(e.to.as_str()) {
        Some(n) => n,
        None => return None,
    };
    if optional_eq(&from.layer, &rule.from) && optional_eq(&to.layer, &rule.to) {
        let mut msg: Vec<char> = layer_label_chars(&rule.from, "source");
        push_str(&mut msg, " layer '");
        push_str(&mut msg, from.name.as_str());
        push_str(&mut msg, "' must not import ");
        let tl = layer_label_chars(&rule.to, "target");
        push_all(&mut msg, tl.as_slice());
        push_str(&mut msg, " '");
        push_str(&mut msg, to.name.as_str());
        push_str(&mut msg, "'");
        let v = Violation {
            rule_id: rule.id.clone(),
            message: string_of(msg.as_slice()),
            subject: from.path.clone(),
        };
        assert(v@.message =~= forbidden_message(rule@, from@, to@));
        Some(v)
    } else {
        None
    }
}

fn cycle_violation(graph: &Graph, e: &Edge, rule: &RuleDefinition) -> (r: Option<Violation>)
    ensures
        match r {
            Some(v) => cycle_hit(graph.edges@, *e, rule@) == Some(v@),
            None => cycle_hit(graph.edges@, *e, rule@).is_none(),
        },
{
    if e.kind != EdgeKind::Imports {
        return None;
    }
    if has_path(graph, e.to.as_str(), e.from.as_str()) {
        let mut msg: Vec<char> = chars_of("import cycle detected between '");
        push_str(&mut msg, e.from.as_str());
        push_str(&mut msg, "' and '");
        push_str(&mut msg, e.to.as_str());
        push_str(&mut msg, "'");
        let v = Violation {
            rule_id: rule.id.clone(),
            message: string_of(msg.as_slice()),
            subject: e.from.clone(),
        };
        assert(v@.message =~= cycle_message(*e));
        Some(v)
    } else {
        None
    }
}

fn violation_less(a: &Violation, b: &Violation) -> (r: bool)
    ensures
        r == violation_lt(a@, b@),
{
    let ar = chars_of(a.rule_id.as_str());
    let br = chars_of(b.rule_id.as_str());
    let c = crate::text::compare_chars(ar.as_slice(), br.as_slice());
    if c < 0 {
        true
    } else if c > 0 {
        proof {
            crate::text::lemma_seq_lt_asymmetric(b@.rule_id, a@.rule_id);
        }
        false
    } else {
        let a_s = chars_of(a.subject.as_str());
        let b_s = chars_of(b.subject.as_str());
        crate::text::compare_chars(a_s.as_slice(), b_s.as_slice()) < 0
    }
}

/// Detects architecture violations using explicit rule definitions: every
/// enabled rule's hits, sorted by rule id and subject, keeping the first of
/// each run with the same rule id and subject.
pub fn check_graph_with_rules(graph: &Graph, rules: &[RuleDefinition]) -> (r: Vec<Violation>)
    ensures
        violation_views(r@) == dedup_violations(
            sort_violations(all_hits(graph.nodes@, graph.edges@, rule_views(rules@))),
        ),
{
    let mut raw: Vec<Violation> = Vec::new();
    let mut ri: usize = 0;
    while ri < rules.len()
        invariant
            ri <= rules@.len(),
            violation_views(raw@) == all_hits(graph.nodes@, graph.edges@, rule_views(rules@).take(ri as int)),
        decreases rules.len() - ri,
    {
        let rule = &rules[ri];
        let ghost before = violation_views(raw@);
        let is_forbidden = str_equal(rule.rule_type.as_str(), "forbidden_import");
        let is_cycle = str_equal(rule.rule_type.as_str(), "import_cycle");
        let mut ei: usize = 0;
        while ei < graph.edges.len()
            invariant
                ri < rules@.len(),
                *rule == rules@[ri as int],
                is_forbidden == (rule@.rule_type == "forbidden_import"@),
                is_cycle == (rule@.rule_type == "import_cycle"@),
                ei <= graph.edges@.len(),
                violation_views(raw@) == before + rule_hits(
                    graph.nodes@,
                    graph.edges@,
                    graph.edges@.take(ei as int),
                    rule@,
                ),
            decreases graph.edges.len() - ei,
        {
            let e = &graph.edges[ei];
            let hit = if !rule.enabled {
                None
            } else if is_forbidden {
                forbidden_violation(&graph.nodes, e, rule)
            } else if is_cycle {
                cycle_violation(graph, e, rule)
            } else {
                None
            };
            let ghost prev = raw@;
            match hit {
                Some(v) => {
                    raw.push(v);
                },
                None => {},
            }
            proof {
                let t = graph.edges@.take(ei + 1);
                assert(t.drop_last() =~= graph.edges@.take(ei as int));
                assert(t.last() == *e);
                assert(violation_views(prev.push(raw@.last())) =~= violation_views(prev).push(raw@.last()@));
            }
            ei += 1;
        }
        proof {
            assert(graph.edges@.take(graph.edges@.len() as int) =~= graph.edges@);
            let rs = rule_views(rules@).take(ri + 1);
            assert(rs.drop_last() =~= rule_views(rules@).take(ri as int));
            assert(rs.last() == rules@[ri as int]@);
        }
        ri += 1;
    }
    assert(rule_views(rules@).take(rules@.len() as int) =~= rule_views(rules@));
    let sorted = sort_violation_list(raw);
    dedup_violation_list(sorted)
}

/// Stable insertion at `p` is the recursive insertion when `p` is the first
/// position after which every element is above `x`.
proof fn lemma_insert_sorted_at(s: Seq<ViolationView>, x: ViolationView, p: int)
    requires
        0 <= p <= s.len(),
        forall|j: int| p <= j < s.len() ==> violation_lt(x, #[trigger] s[j]),
        p == 0 || !violation_lt(x, s[p - 1]),
    ensures
        insert_sorted(s, x) == s.insert(p, x),
    decreases s.len(),
{
    if s.len() == 0 || !violation_lt(x, s.last()) {
        if p < s.len() {
            assert(violation_lt(x, s[s.len() - 1]));
        }
        assert(s.push(x) =~= s.insert(p, x));
    } else {
        let t = s.drop_last();
        assert(p < s.len());
        assert forall|j: int| p <= j < t.len() implies violation_lt(x, #[trigger] t[j]) by {
            assert(t[j] == s[j]);
        }
        if p > 0 {
            assert(t[p - 1] == s[p - 1]);
        }
        lemma_insert_sorted_at(t, x, p);
        assert(t.insert(p, x).push(s.last()) =~= s.insert(p, x));
    }
}

/// Detects architecture rules and import cycles in a graph with the built-in rules.
pub fn check_graph(graph: &Graph) -> (r: Vec<Violation>)
    ensures
        violation_views(r@) == dedup_violations(
            sort_violations(all_hits(graph.nodes@, graph.edges@, default_rule_views())),
        ),
{
    let rules = default_rules();
    check_graph_with_rules(graph, rules.as_slice())
}

/// Runs Apex's built-in architecture checks.
pub fn check(graph: &Graph) -> (r: Vec<Violation>)
    ensures
        violation_views(r@) == dedup_violations(
            sort_violations(all_hits(graph.nodes@, graph.edges@, default_rule_views())),
        ),
{
    check_graph(graph)
}

fn sort_violation_list(v: Vec<Violation>) -> (r: Vec<Violation>)
    ensures
        violation_views(r@) == sort_violations(violation_views(v@)),
{
    let ghost all = violation_views(v@);
    let mut out: Vec<Violation> = Vec::new();
    let mut i: usize = 0;
    while i < v.len()
        invariant
            i <= v@.len(),
            all == violation_views(v@),
            violation_views(out@) == sort_violations(all.take(i as int)),
        decreases v.len() - i,
    {
        let x = v[i].duplicate();
        let mut pos = out.len();
        while pos > 0 && violation_less(&x, &out[pos - 1])
            invariant
                pos <= out@.len(),
                forall|j: int| pos <= j < out@.len() ==> violation_lt(x@, #[trigger] out@[j]@),
            decreases pos,
        {
            pos -= 1;
        }
        let ghost before = out@;
        proof {
            let sv = violation_views(before);
            assert forall|j: int| pos <= j < sv.len() implies violation_lt(x@, #[trigger] sv[j]) by {
                assert(sv[j] == before[j]@);
            }
            if pos > 0 {
                assert(sv[pos - 1] == before[pos - 1]@);
            }
            lemma_insert_sorted_at(sv, x@, pos as int);
            let t = all.take(i + 1);
            assert(t.drop_last() =~= all.take(i as int));
            assert(t.last() == x@);
        }
        out.insert(pos, x);
        assert(violation_views(out@) =~= violation_views(before).insert(pos as int, x@));
        i += 1;
    }
    assert(all.take(v@.len() as int) =~= all);
    out
}

fn dedup_violation_list(v: Vec<Violation>) -> (r: Vec<Violation>)
    ensures
        violation_views(r@) == dedup_violations(violation_views(v@)),
{
    let ghost all = violation_views(v@);
    let mut out: Vec<Violation> = Vec::new();
    let mut i: usize = 0;
    while i < v.len()
        invariant
            i <= v@.len(),
            all == violation_views(v@),
            violation_views(out@) == dedup_violations(all.take(i as int)),
        decreases v.len() - i,
    {
        let x = &v[i];
        let keep = if out.len() == 0 {
            true
        } else {
            let last = &out[out.len() - 1];
            !(str_equal(last.rule_id.as_str(), x.rule_id.as_str()) && str_equal(
                last.subject.as_str(),
                x.subject.as_str(),
            ))
        };
        let ghost before = out@;
        proof {
            let t = all.take(i + 1);
            assert(t.drop_last() =~= all.take(i as int));
            assert(t.last() == x@);
            if out@.len() > 0 {
                assert(violation_views(before).last() == before.last()@);
            }
        }
        if keep {
            out.push(x.duplicate());
            assert(violation_views(out@) =~= violation_views(before).push(x@));
        }
        i += 1;
    }
    assert(all.take(v@.len() as int) =~= all);
    out
}

} // verus!
