//! Properties that hold of every graph the updates and the repository scan
//! build, whatever the sources.
use crate::graph::{adjacent, ball, is_builtin_ref, step};
use crate::graph::{members_of, Graph};
use crate::layout::grid_position;
use crate::model::Member;
use crate::render::{edge_items, edge_json, graph_json, node_items, node_json};
use crate::metrics::{
    degree, endpoint, first_pos, follow, found_cycles, hot_lt, import_endpoint, import_link, import_successors, insert_hot,
    is_import, is_import_cycle, is_import_path, lemma_import_successors_sorted, lemma_unseen_mono, relevant, search_all,
    sort_hot, successors, top_hotspots, unseen, visit, NodeMetricView, SearchState,
};
use crate::model::{Edge, Node, RuleView, ViolationView};
use crate::rules::{all_hits, dedup_violations, insert_sorted, rule_hits, sort_violations, violation_lt};
use crate::text::{lemma_seq_lt_asymmetric, lemma_seq_lt_irreflexive, lemma_seq_lt_total, lemma_seq_lt_transitive, seq_lt};
use crate::rules_file::{complete_rule, complete_rules, parsed_rules};
use crate::keymap::{has_key, insert_entry, lemma_insert_entry, sorted_keys, value_of};
use crate::model::{EdgeKind, EdgeView, MemberKind, MemberView, NodeView};
use crate::ops::{apply_all, has_member_v, link_v, member_v, op_effect, reference_v, upsert_v, GraphView, OpView};
use crate::scan::{empty_view, recognizer_ops, scan_view, source_ops, source_recognizer, Recognizer, SourceFile};
use crate::web::{pct_bytes, percent_decoded, prepend, Dialect};
use vstd::utf8::{
    decode_utf8, encode_scalar, encode_utf8, encode_utf8_decode_utf8, encode_utf8_valid_utf8, has_width_1_encoding,
    has_width_2_encoding, has_width_3_encoding, last_continuation_byte, leading_byte_width_1, leading_byte_width_2,
    leading_byte_width_3, leading_byte_width_4, second_last_continuation_byte, third_last_continuation_byte, valid_utf8,
};
use vstd::prelude::*;

verus! {

/// No edge twice, no edge from a node to itself, no edge touching a
/// built-in type.
pub open spec fn edges_clean(es: Seq<EdgeView>) -> bool {
    &&& forall|i: int, j: int| 0 <= i < j < es.len() ==> #[trigger] es[i] != #[trigger] es[j]
    &&& forall|i: int|
        0 <= i < es.len() ==> (#[trigger] es[i]).from != es[i].to && !is_builtin_ref(es[i].from) && !is_builtin_ref(
            es[i].to,
        )
}

/// Every member named, and no two members of one node with the same name and kind.
pub open spec fn members_clean(ms: Map<Seq<char>, Seq<MemberView>>) -> bool {
    forall|id: Seq<char>| #[trigger] ms.dom().contains(id) ==> member_list_clean(ms[id])
}

/// Every member named, and no two with the same name and kind.
pub open spec fn member_list_clean(l: Seq<MemberView>) -> bool {
    &&& forall|i: int| 0 <= i < l.len() ==> (#[trigger] l[i]).name.len() > 0
    &&& forall|i: int, j: int|
        0 <= i < j < l.len() ==> !(#[trigger] l[i].name == #[trigger] l[j].name && l[i].kind == l[j].kind)
}

/// A graph built by the updates: nodes kept in id order, edges clean,
/// member lists clean.
pub open spec fn graph_clean(g: GraphView) -> bool {
    sorted_keys(g.nodes) && edges_clean(g.edges) && members_clean(g.members)
}

proof fn lemma_link_clean(g: GraphView, a: Seq<char>, b: Seq<char>, k: EdgeKind)
    requires
        edges_clean(g.edges),
    ensures
        edges_clean(link_v(g, a, b, k).edges),
{
    let r = link_v(g, a, b, k);
    if crate::ops::edge_new_v(g.edges, a, b, k) {
        let e = EdgeView { from: a, to: b, kind: k };
        assert forall|i: int, j: int| 0 <= i < j < r.edges.len() implies #[trigger] r.edges[i] != #[trigger] r.edges[j] by {
            if j == g.edges.len() {
                assert(r.edges[i] == g.edges[i]);
                assert(g.edges.contains(g.edges[i]));
            } else {
                assert(r.edges[i] == g.edges[i] && r.edges[j] == g.edges[j]);
            }
        }
        assert forall|i: int| 0 <= i < r.edges.len() implies (#[trigger] r.edges[i]).from != r.edges[i].to
            && !is_builtin_ref(r.edges[i].from) && !is_builtin_ref(r.edges[i].to) by {
            if i < g.edges.len() {
                assert(r.edges[i] == g.edges[i]);
            }
        }
    }
}

proof fn lemma_member_clean(g: GraphView, id: Seq<char>, m: MemberView)
    requires
        members_clean(g.members),
    ensures
        members_clean(member_v(g, id, m).members),
{
    if m.name.len() > 0 {
        let list = if g.members.dom().contains(id) { g.members[id] } else { Seq::empty() };
        assert(member_list_clean(list));
        if !has_member_v(list, m.name, m.kind) {
            let l2 = list.push(m);
            assert forall|i: int, j: int| 0 <= i < j < l2.len() implies !(#[trigger] l2[i].name == #[trigger] l2[j].name
                && l2[i].kind == l2[j].kind) by {
                if j == list.len() {
                    assert(l2[i] == list[i]);
                    if l2[i].name == m.name && l2[i].kind == m.kind {
                        assert(list[i].name == m.name && list[i].kind == m.kind);
                    }
                } else {
                    assert(l2[i] == list[i] && l2[j] == list[j]);
                }
            }
            assert forall|i: int| 0 <= i < l2.len() implies (#[trigger] l2[i]).name.len() > 0 by {
                if i < list.len() {
                    assert(l2[i] == list[i]);
                }
            }
            assert(member_list_clean(l2));
        }
        let r = member_v(g, id, m);
        assert forall|x: Seq<char>| #[trigger] r.members.dom().contains(x) implies member_list_clean(r.members[x]) by {
            if x != id {
                assert(g.members.dom().contains(x));
            }
        }
    }
}

/// One update keeps a graph clean.
pub proof fn law_update_keeps_clean(g: GraphView, op: OpView)
    requires
        graph_clean(g),
    ensures
        graph_clean(op_effect(g, op)),
{
    match op {
        OpView::Upsert(n) => {
            lemma_insert_entry(g.nodes, n.id, n);
        },
        OpView::Link(a, b, k) => {
            lemma_link_clean(g, a, b, k);
        },
        OpView::AddMember(id, m) => {
            lemma_member_clean(g, id, m);
        },
        OpView::Reference(s, t, p, k, l) => {
            let clean = crate::ops::clean_reference(t);
            let id = "type:"@ + clean;
            let n = NodeView { id, name: clean, kind: crate::model::NodeKind::Type, path: p, layer: l };
            lemma_insert_entry(g.nodes, id, n);
            let g1 = if has_key(g.nodes, id) { g } else { upsert_v(g, n) };
            lemma_link_clean(g1, s, id, k);
        },
    }
}

/// Any sequence of updates keeps a graph clean: nodes stay in id order, no
/// edge is held twice or loops or touches a built-in type, no member list
/// holds two members with the same name and kind.
pub proof fn law_updates_keep_clean(g: GraphView, ops: Seq<OpView>)
    requires
        graph_clean(g),
    ensures
        graph_clean(apply_all(g, ops)),
    decreases ops.len(),
{
    if ops.len() > 0 {
        law_updates_keep_clean(g, ops.drop_last());
        law_update_keeps_clean(apply_all(g, ops.drop_last()), ops.last());
    }
}

/// Recording the same edge twice is recording it once.
pub proof fn law_link_idempotent(g: GraphView, a: Seq<char>, b: Seq<char>, k: EdgeKind)
    ensures
        link_v(link_v(g, a, b, k), a, b, k) == link_v(g, a, b, k),
{
    let g1 = link_v(g, a, b, k);
    if crate::ops::edge_new_v(g.edges, a, b, k) {
        let e = EdgeView { from: a, to: b, kind: k };
        assert(g1.edges[g1.edges.len() - 1] == e);
        assert(g1.edges.contains(e));
    }
}

/// The graph of any repository scan is clean: nodes in id order, no edge
/// twice, no self or built-in edge, no repeated member.
pub proof fn law_scan_clean(files: Seq<SourceFile>)
    ensures
        graph_clean(scan_view(files)),
    decreases files.len(),
{
    if files.len() == 0 {
        assert(members_clean(empty_view().members));
    } else {
        law_scan_clean(files.drop_last());
        law_updates_keep_clean(scan_view(files.drop_last()), source_ops(files.last()));
    }
}

/// No two places of the layout grid coincide: nodes never overlap.
pub proof fn law_grid_positions_distinct(i: int, j: int)
    requires
        0 <= i < j,
        j <= usize::MAX / 128,
    ensures
        grid_position(i) != grid_position(j),
{
    assert(0 <= i % 4 < 4 && 0 <= j % 4 < 4) by (nonlinear_arith)
        requires
            0 <= i,
            0 <= j,
    ;
    assert(i == 4 * (i / 4) + i % 4 && j == 4 * (j / 4) + j % 4) by (nonlinear_arith)
        requires
            0 <= i,
            0 <= j,
    ;
    assert(0 <= i / 4 <= j / 4 <= usize::MAX / 512) by (nonlinear_arith)
        requires
            0 <= i < j,
            j <= usize::MAX / 128,
    ;
    let xi = 40 + (i % 4) * 180;
    let xj = 40 + (j % 4) * 180;
    let yi = 40 + (i / 4) * 110;
    let yj = 40 + (j / 4) * 110;
    assert(0 <= xi <= usize::MAX && 0 <= xj <= usize::MAX);
    assert(0 <= yi <= usize::MAX && 0 <= yj <= usize::MAX) by (nonlinear_arith)
        requires
            0 <= i / 4 <= j / 4 <= usize::MAX / 512,
            yi == 40 + (i / 4) * 110,
            yj == 40 + (j / 4) * 110,
    ;
    if i % 4 == j % 4 {
        assert(i / 4 != j / 4);
        assert(yi != yj) by (nonlinear_arith)
            requires
                i / 4 != j / 4,
                yi == 40 + (i / 4) * 110,
                yj == 40 + (j / 4) * 110,
        ;
        assert((yi as usize) != (yj as usize));
    } else {
        assert(xi != xj);
        assert((xi as usize) != (xj as usize));
    }
}

/// The focus around a node always holds the node itself.
pub proof fn law_ball_center(edges: Seq<Edge>, center: Seq<char>, k: nat)
    ensures
        ball(edges, center, k).contains(center),
    decreases k,
{
    if k > 0 {
        law_ball_center(edges, center, (k - 1) as nat);
    }
}

/// More hops never lose a node: the focus grows with its radius.
pub proof fn law_ball_grows(edges: Seq<Edge>, center: Seq<char>, j: nat, k: nat)
    requires
        j <= k,
    ensures
        ball(edges, center, j).subset_of(ball(edges, center, k)),
    decreases k - j,
{
    if j < k {
        law_ball_grows(edges, center, j, (k - 1) as nat);
        assert(ball(edges, center, (k - 1) as nat).subset_of(step(edges, ball(edges, center, (k - 1) as nat))));
    }
}

/// A disabled rule reports nothing.
pub proof fn law_disabled_rule_silent(nodes: Seq<(Seq<char>, Node)>, all: Seq<Edge>, edges: Seq<Edge>, rule: RuleView)
    requires
        !rule.enabled,
    ensures
        rule_hits(nodes, all, edges, rule) == Seq::<ViolationView>::empty(),
    decreases edges.len(),
{
    if edges.len() > 0 {
        law_disabled_rule_silent(nodes, all, edges.drop_last(), rule);
    }
}

/// A graph without edges breaks no rule.
pub proof fn law_no_edges_no_violations(nodes: Seq<(Seq<char>, Node)>, rules: Seq<RuleView>)
    ensures
        all_hits(nodes, Seq::empty(), rules) == Seq::<ViolationView>::empty(),
    decreases rules.len(),
{
    if rules.len() > 0 {
        law_no_edges_no_violations(nodes, rules.drop_last());
        assert(rule_hits(nodes, Seq::empty(), Seq::empty(), rules.last()) == Seq::<ViolationView>::empty());
        assert(Seq::<ViolationView>::empty() + Seq::<ViolationView>::empty() =~= Seq::<ViolationView>::empty());
    }
}

proof fn lemma_complete_rules_complete(s: Seq<RuleView>)
    ensures
        forall|i: int| 0 <= i < complete_rules(s).len() ==> complete_rule(#[trigger] complete_rules(s)[i]),
    decreases s.len(),
{
    if s.len() > 0 {
        lemma_complete_rules_complete(s.drop_last());
        let r = complete_rules(s.drop_last());
        if complete_rule(s.last()) {
            assert forall|i: int| 0 <= i < r.push(s.last()).len() implies complete_rule(#[trigger] r.push(s.last())[i]) by {
                if i < r.len() {
                    assert(r.push(s.last())[i] == r[i]);
                }
            }
        }
    }
}

/// Every rule read from a rules file has an id and a type.
pub proof fn law_read_rules_complete(content: Seq<char>)
    ensures
        forall|i: int| 0 <= i < parsed_rules(content).len() ==> {
            &&& (#[trigger] parsed_rules(content)[i]).id.len() > 0
            &&& parsed_rules(content)[i].rule_type.len() > 0
        },
{
    let st = crate::rules_file::rules_scan(crate::strs::lines(content));
    lemma_complete_rules_complete(crate::rules_file::push_opt(st.rules, st.current));
}

/// Two violations with the same rule id and subject.
pub open spec fn same_key(a: ViolationView, b: ViolationView) -> bool {
    a.rule_id == b.rule_id && a.subject == b.subject
}

/// In order by rule id and subject, equal keys allowed.
pub open spec fn key_sorted(s: Seq<ViolationView>) -> bool {
    forall|i: int, j: int| 0 <= i < j < s.len() ==> !violation_lt(#[trigger] s[j], #[trigger] s[i])
}

/// Strictly in order by rule id and subject: no key twice.
pub open spec fn key_increasing(s: Seq<ViolationView>) -> bool {
    forall|i: int, j: int| 0 <= i < j < s.len() ==> violation_lt(#[trigger] s[i], #[trigger] s[j])
}

proof fn lemma_vlt_transitive(a: ViolationView, b: ViolationView, c: ViolationView)
    requires
        violation_lt(a, b),
        violation_lt(b, c),
    ensures
        violation_lt(a, c),
{
    if seq_lt(a.rule_id, b.rule_id) && seq_lt(b.rule_id, c.rule_id) {
        lemma_seq_lt_transitive(a.rule_id, b.rule_id, c.rule_id);
    } else if a.rule_id == b.rule_id && b.rule_id == c.rule_id {
        lemma_seq_lt_transitive(a.subject, b.subject, c.subject);
    }
}

proof fn lemma_vlt_total(a: ViolationView, b: ViolationView)
    ensures
        violation_lt(a, b) || violation_lt(b, a) || same_key(a, b),
{
    lemma_seq_lt_total(a.rule_id, b.rule_id);
    lemma_seq_lt_total(a.subject, b.subject);
}

proof fn lemma_vlt_asymmetric(a: ViolationView, b: ViolationView)
    requires
        violation_lt(a, b),
    ensures
        !violation_lt(b, a),
{
    if seq_lt(a.rule_id, b.rule_id) {
        lemma_seq_lt_asymmetric(a.rule_id, b.rule_id);
    } else {
        lemma_seq_lt_asymmetric(a.subject, b.subject);
        lemma_seq_lt_irreflexive(a.rule_id);
    }
}

/// `b` is not above `x` when `b` is not above `a` and `a` is not above `x`.
proof fn lemma_not_below(x: ViolationView, a: ViolationView, b: ViolationView)
    requires
        !violation_lt(x, a),
        !violation_lt(a, b),
    ensures
        !violation_lt(x, b),
{
    if violation_lt(x, b) {
        lemma_vlt_total(x, a);
        if violation_lt(a, x) {
            lemma_vlt_transitive(a, x, b);
        }
    }
}

proof fn lemma_insert_sorted_facts(s: Seq<ViolationView>, x: ViolationView)
    requires
        key_sorted(s),
    ensures
        key_sorted(insert_sorted(s, x)),
        insert_sorted(s, x).len() == s.len() + 1,
        forall|i: int| 0 <= i < insert_sorted(s, x).len() ==> #[trigger] insert_sorted(s, x)[i] == x || s.contains(insert_sorted(s, x)[i]),
    decreases s.len(),
{
    let r = insert_sorted(s, x);
    if s.len() == 0 || !violation_lt(x, s.last()) {
        assert forall|i: int, j: int| 0 <= i < j < r.len() implies !violation_lt(#[trigger] r[j], #[trigger] r[i]) by {
            if j == s.len() {
                assert(r[i] == s[i]);
                if i < s.len() - 1 {
                    assert(!violation_lt(s[s.len() - 1], s[i]));
                    lemma_not_below(x, s[s.len() - 1], s[i]);
                }
            } else {
                assert(r[i] == s[i] && r[j] == s[j]);
            }
        }
        assert forall|i: int| 0 <= i < r.len() implies #[trigger] r[i] == x || s.contains(r[i]) by {
            if i < s.len() {
                assert(r[i] == s[i]);
            }
        }
    } else {
        let t = s.drop_last();
        assert forall|i: int, j: int| 0 <= i < j < t.len() implies !violation_lt(#[trigger] t[j], #[trigger] t[i]) by {
            assert(t[i] == s[i] && t[j] == s[j]);
        }
        lemma_insert_sorted_facts(t, x);
        let q = insert_sorted(t, x);
        assert(r == q.push(s.last()));
        assert forall|i: int, j: int| 0 <= i < j < r.len() implies !violation_lt(#[trigger] r[j], #[trigger] r[i]) by {
            if j == q.len() {
                assert(r[i] == q[i]);
                assert(q[i] == x || t.contains(q[i]));
                if q[i] == x {
                    lemma_vlt_asymmetric(x, s.last());
                } else {
                    let k = choose|k: int| 0 <= k < t.len() && t[k] == q[i];
                    assert(t[k] == s[k]);
                    assert(!violation_lt(s[s.len() - 1], s[k]));
                }
            } else {
                assert(r[i] == q[i] && r[j] == q[j]);
            }
        }
        assert forall|i: int| 0 <= i < r.len() implies #[trigger] r[i] == x || s.contains(r[i]) by {
            if i < q.len() {
                assert(r[i] == q[i]);
                if q[i] != x {
                    assert(t.contains(q[i]));
                    let k = choose|k: int| 0 <= k < t.len() && t[k] == q[i];
                    assert(s[k] == t[k]);
                }
            } else {
                assert(r[i] == s[s.len() - 1]);
            }
        }
    }
}

proof fn lemma_sort_sorted(s: Seq<ViolationView>)
    ensures
        key_sorted(sort_violations(s)),
        sort_violations(s).len() == s.len(),
    decreases s.len(),
{
    if s.len() > 0 {
        lemma_sort_sorted(s.drop_last());
        lemma_insert_sorted_facts(sort_violations(s.drop_last()), s.last());
    }
}

proof fn lemma_dedup_increasing(s: Seq<ViolationView>)
    requires
        key_sorted(s),
    ensures
        key_increasing(dedup_violations(s)),
        forall|i: int| 0 <= i < dedup_violations(s).len() ==> s.contains(#[trigger] dedup_violations(s)[i]),
        s.len() > 0 ==> dedup_violations(s).len() > 0 && same_key(dedup_violations(s).last(), s.last()),
    decreases s.len(),
{
    if s.len() > 0 {
        let t = s.drop_last();
        assert forall|i: int, j: int| 0 <= i < j < t.len() implies !violation_lt(#[trigger] t[j], #[trigger] t[i]) by {
            assert(t[i] == s[i] && t[j] == s[j]);
        }
        lemma_dedup_increasing(t);
        let r = dedup_violations(t);
        let x = s.last();
        assert forall|i: int| 0 <= i < r.len() implies s.contains(#[trigger] r[i]) by {
            let k = choose|k: int| 0 <= k < t.len() && t[k] == r[i];
            assert(s[k] == t[k]);
        }
        if r.len() > 0 && r.last().rule_id == x.rule_id && r.last().subject == x.subject {
        } else {
            let r2 = r.push(x);
            assert forall|i: int, j: int| 0 <= i < j < r2.len() implies violation_lt(#[trigger] r2[i], #[trigger] r2[j]) by {
                if j == r.len() {
                    assert(r2[i] == r[i]);
                    let k = choose|k: int| 0 <= k < t.len() && t[k] == r[i];
                    assert(s[k] == r[i]);
                    assert(!violation_lt(s[s.len() - 1], s[k]));
                    lemma_vlt_total(r[i], x);
                    if same_key(r[i], x) {
                        // The last kept element has another key than x, yet it
                        // is not below r[i], which has x's key.
                        let m = r.len() - 1;
                        assert(!same_key(r[m], x));
                        if i < m {
                            assert(violation_lt(r[i], r[m]));
                            let k2 = choose|k2: int| 0 <= k2 < t.len() && t[k2] == r[m];
                            assert(s[k2] == r[m]);
                            assert(!violation_lt(s[s.len() - 1], s[k2]));
                            assert(violation_lt(x, r[m]));
                        }
                    }
                } else {
                    assert(r2[i] == r[i] && r2[j] == r[j]);
                }
            }
            assert forall|i: int| 0 <= i < r2.len() implies s.contains(#[trigger] r2[i]) by {
                if i < r.len() {
                    assert(r2[i] == r[i]);
                } else {
                    assert(s[s.len() - 1] == x);
                }
            }
        }
    }
}

/// Checking reports violations strictly in order of rule id, then subject:
/// no rule reports the same subject twice.
pub proof fn law_violations_ordered(hits: Seq<ViolationView>)
    ensures
        key_increasing(dedup_violations(sort_violations(hits))),
{
    lemma_sort_sorted(hits);
    lemma_dedup_increasing(sort_violations(hits));
}

/// A rule that checking acts on: enabled, and of a type it knows.
pub open spec fn active_rule(r: RuleView) -> bool {
    r.enabled && (r.rule_type == "forbidden_import"@ || r.rule_type == "import_cycle"@)
}

proof fn lemma_inactive_rule_silent(nodes: Seq<(Seq<char>, Node)>, all: Seq<Edge>, edges: Seq<Edge>, rule: RuleView)
    requires
        !active_rule(rule),
    ensures
        rule_hits(nodes, all, edges, rule) == Seq::<ViolationView>::empty(),
    decreases edges.len(),
{
    if edges.len() > 0 {
        lemma_inactive_rule_silent(nodes, all, edges.drop_last(), rule);
    }
}

proof fn lemma_active_hits(nodes: Seq<(Seq<char>, Node)>, edges: Seq<Edge>, rules: Seq<RuleView>)
    ensures
        all_hits(nodes, edges, rules) == all_hits(nodes, edges, rules.filter(|r: RuleView| active_rule(r))),
    decreases rules.len(),
{
    let f = |r: RuleView| active_rule(r);
    if rules.len() > 0 {
        let t = rules.drop_last();
        lemma_active_hits(nodes, edges, t);
        assert(rules =~= t.push(rules.last()));
        t.lemma_filter_push(rules.last(), f);
        if active_rule(rules.last()) {
            let ft = t.filter(f).push(rules.last());
            assert(ft.drop_last() =~= t.filter(f));
        } else {
            lemma_inactive_rule_silent(nodes, edges, edges, rules.last());
            assert(all_hits(nodes, edges, rules) =~= all_hits(nodes, edges, t));
        }
    } else {
        assert(rules.filter(f) =~= rules);
    }
}

/// Checking acts only on enabled rules of a known type: dropping every other
/// rule from the list leaves the reported violations as they were, and a list
/// without such rules reports none.
pub proof fn law_only_active_rules_count(nodes: Seq<(Seq<char>, Node)>, edges: Seq<Edge>, rules: Seq<RuleView>)
    ensures
        dedup_violations(sort_violations(all_hits(nodes, edges, rules))) == dedup_violations(
            sort_violations(all_hits(nodes, edges, rules.filter(|r: RuleView| active_rule(r)))),
        ),
        (forall|i: int| 0 <= i < rules.len() ==> !active_rule(#[trigger] rules[i])) ==> dedup_violations(
            sort_violations(all_hits(nodes, edges, rules)),
        ) == Seq::<ViolationView>::empty(),
{
    let f = |r: RuleView| active_rule(r);
    lemma_active_hits(nodes, edges, rules);
    if forall|i: int| 0 <= i < rules.len() ==> !active_rule(#[trigger] rules[i]) {
        lemma_filter_none(rules, f);
        assert(rules.filter(f) =~= Seq::<RuleView>::empty());
        assert(all_hits(nodes, edges, Seq::<RuleView>::empty()) == Seq::<ViolationView>::empty());
        let e = Seq::<ViolationView>::empty();
        assert(sort_violations(e) == e);
        assert(dedup_violations(e) == e);
    }
}

proof fn lemma_filter_none(s: Seq<RuleView>, f: spec_fn(RuleView) -> bool)
    requires
        forall|i: int| 0 <= i < s.len() ==> !f(#[trigger] s[i]),
    ensures
        s.filter(f).len() == 0,
    decreases s.len(),
{
    if s.len() > 0 {
        let t = s.drop_last();
        assert forall|i: int| 0 <= i < t.len() implies !f(#[trigger] t[i]) by {
            assert(t[i] == s[i]);
        }
        lemma_filter_none(t, f);
        assert(s =~= t.push(s.last()));
        t.lemma_filter_push(s.last(), f);
        assert(!f(s[s.len() - 1]));
    } else {
        reveal(Seq::filter);
    }
}

/// The sum of the degrees of the ids in `ids`.
pub open spec fn degree_total(nodes: Seq<(Seq<char>, Node)>, edges: Seq<Edge>, ids: Seq<Seq<char>>, incoming: bool) -> nat
    decreases ids.len(),
{
    if ids.len() == 0 {
        0
    } else {
        degree_total(nodes, edges, ids.drop_last(), incoming) + degree(nodes, edges, ids.last(), incoming)
    }
}

/// The number of edges that metrics count.
pub open spec fn relevant_count(nodes: Seq<(Seq<char>, Node)>, edges: Seq<Edge>) -> nat
    decreases edges.len(),
{
    if edges.len() == 0 {
        0
    } else {
        relevant_count(nodes, edges.drop_last()) + if relevant(nodes, edges.last()) { 1nat } else { 0nat }
    }
}

/// The ids of the nodes, in id order.
pub open spec fn node_ids(nodes: Seq<(Seq<char>, Node)>) -> Seq<Seq<char>> {
    nodes.map_values(|e: (Seq<char>, Node)| e.0)
}

/// How many times `x` occurs in `ids`.
pub open spec fn occurrences(ids: Seq<Seq<char>>, x: Seq<char>) -> nat
    decreases ids.len(),
{
    if ids.len() == 0 {
        0
    } else {
        occurrences(ids.drop_last(), x) + if ids.last() == x { 1nat } else { 0nat }
    }
}

proof fn lemma_total_no_edges(nodes: Seq<(Seq<char>, Node)>, edges: Seq<Edge>, ids: Seq<Seq<char>>, incoming: bool)
    requires
        edges.len() == 0,
    ensures
        degree_total(nodes, edges, ids, incoming) == 0,
    decreases ids.len(),
{
    if ids.len() > 0 {
        lemma_total_no_edges(nodes, edges, ids.drop_last(), incoming);
    }
}

proof fn lemma_total_push(nodes: Seq<(Seq<char>, Node)>, edges: Seq<Edge>, ids: Seq<Seq<char>>, incoming: bool)
    requires
        edges.len() > 0,
    ensures
        degree_total(nodes, edges, ids, incoming) == degree_total(nodes, edges.drop_last(), ids, incoming) + if relevant(
            nodes,
            edges.last(),
        ) {
            occurrences(ids, endpoint(edges.last(), incoming))
        } else {
            0
        },
    decreases ids.len(),
{
    if ids.len() > 0 {
        lemma_total_push(nodes, edges, ids.drop_last(), incoming);
    }
}

proof fn lemma_occurs_once(ids: Seq<Seq<char>>, x: Seq<char>, i: int)
    requires
        0 <= i < ids.len(),
        ids[i] == x,
        forall|a: int, b: int| 0 <= a < b < ids.len() ==> #[trigger] ids[a] != #[trigger] ids[b],
    ensures
        occurrences(ids, x) == 1,
    decreases ids.len(),
{
    let t = ids.drop_last();
    assert forall|a: int, b: int| 0 <= a < b < t.len() implies #[trigger] t[a] != #[trigger] t[b] by {
        assert(t[a] == ids[a] && t[b] == ids[b]);
    }
    if i < ids.len() - 1 {
        assert(t[i] == x);
        lemma_occurs_once(t, x, i);
        assert(ids.last() != x) by {
            assert(ids[i] != ids[ids.len() - 1]);
        }
    } else {
        lemma_occurs_never(t, x, ids);
    }
}

proof fn lemma_occurs_never(t: Seq<Seq<char>>, x: Seq<char>, ids: Seq<Seq<char>>)
    requires
        t == ids.drop_last(),
        ids.len() > 0,
        ids.last() == x,
        forall|a: int, b: int| 0 <= a < b < ids.len() ==> #[trigger] ids[a] != #[trigger] ids[b],
    ensures
        occurrences(t, x) == 0,
    decreases t.len(),
{
    if t.len() > 0 {
        let u = t.drop_last();
        let ids2 = u.push(x);
        assert forall|a: int, b: int| 0 <= a < b < ids2.len() implies #[trigger] ids2[a] != #[trigger] ids2[b] by {
            if b == u.len() {
                assert(ids2[a] == ids[a]);
                assert(ids[a] != ids[ids.len() - 1]);
            } else {
                assert(ids2[a] == ids[a] && ids2[b] == ids[b]);
            }
        }
        assert(ids2.drop_last() =~= u);
        lemma_occurs_never(u, x, ids2);
        assert(t.last() == ids[t.len() - 1]);
        assert(ids[t.len() - 1] != ids[ids.len() - 1]);
    }
}

/// The fan-in counts of all nodes add up to the number of counted edges, and
/// so do the fan-out counts: every counted edge enters one node and leaves one.
pub proof fn law_degrees_balance(nodes: Seq<(Seq<char>, Node)>, edges: Seq<Edge>)
    requires
        sorted_keys(nodes),
    ensures
        degree_total(nodes, edges, node_ids(nodes), true) == relevant_count(nodes, edges),
        degree_total(nodes, edges, node_ids(nodes), false) == relevant_count(nodes, edges),
    decreases edges.len(),
{
    let ids = node_ids(nodes);
    if edges.len() == 0 {
        lemma_total_no_edges(nodes, edges, ids, true);
        lemma_total_no_edges(nodes, edges, ids, false);
    } else {
        law_degrees_balance(nodes, edges.drop_last());
        lemma_total_push(nodes, edges, ids, true);
        lemma_total_push(nodes, edges, ids, false);
        let e = edges.last();
        if relevant(nodes, e) {
            assert forall|a: int, b: int| 0 <= a < b < ids.len() implies #[trigger] ids[a] != #[trigger] ids[b] by {
                crate::text::lemma_seq_lt_asymmetric(nodes[a].0, nodes[b].0);
            }
            let i = choose|i: int| 0 <= i < nodes.len() && #[trigger] nodes[i].0 == e.to@;
            let j = choose|j: int| 0 <= j < nodes.len() && #[trigger] nodes[j].0 == e.from@;
            lemma_occurs_once(ids, e.to@, i);
            lemma_occurs_once(ids, e.from@, j);
        }
    }
}

/// No byte of `b` is `%` or `+`.
pub open spec fn no_escape_bytes(b: Seq<u8>) -> bool {
    forall|i: int| 0 <= i < b.len() ==> #[trigger] b[i] != 37 && b[i] != 43
}

proof fn lemma_plain_bytes(b: Seq<u8>, d: Dialect)
    requires
        no_escape_bytes(b),
    ensures
        pct_bytes(b, d) == Ok::<Seq<u8>, Seq<char>>(b),
    decreases b.len(),
{
    if b.len() > 0 {
        let t = b.skip(1);
        assert forall|i: int| 0 <= i < t.len() implies #[trigger] t[i] != 37 && t[i] != 43 by {
            assert(t[i] == b[i + 1]);
        }
        lemma_plain_bytes(t, d);
        assert(b[0] != 37 && b[0] != 43);
        assert(seq![b[0]] + t =~= b);
        assert(prepend(seq![b[0]], Ok::<Seq<u8>, Seq<char>>(t)) == Ok::<Seq<u8>, Seq<char>>(b));
    } else {
        assert(b =~= Seq::<u8>::empty());
    }
}

proof fn lemma_scalar_plain(c: u32)
    requires
        c != 37,
        c != 43,
    ensures
        no_escape_bytes(encode_scalar(c)),
{
    let e = encode_scalar(c);
    if has_width_1_encoding(c) {
        assert(leading_byte_width_1(c) != 37 && leading_byte_width_1(c) != 43) by (bit_vector)
            requires
                c <= 0x7F,
                c != 37,
                c != 43,
        ;
    } else {
        assert(leading_byte_width_2(c) >= 0x80) by (bit_vector);
        assert(leading_byte_width_3(c) >= 0x80) by (bit_vector);
        assert(leading_byte_width_4(c) >= 0x80) by (bit_vector);
        assert(last_continuation_byte(c) >= 0x80) by (bit_vector);
        assert(second_last_continuation_byte(c) >= 0x80) by (bit_vector);
        assert(third_last_continuation_byte(c) >= 0x80) by (bit_vector);
    }
}

proof fn lemma_encode_plain(v: Seq<char>)
    requires
        !v.contains('%'),
        !v.contains('+'),
    ensures
        no_escape_bytes(encode_utf8(v)),
    decreases v.len(),
{
    if v.len() > 0 {
        let rest = v.drop_first();
        assert(!rest.contains('%') && !rest.contains('+')) by {
            if rest.contains('%') {
                let k = choose|k: int| 0 <= k < rest.len() && rest[k] == '%';
                assert(v[k + 1] == '%');
            }
            if rest.contains('+') {
                let k = choose|k: int| 0 <= k < rest.len() && rest[k] == '+';
                assert(v[k + 1] == '+');
            }
        }
        lemma_encode_plain(rest);
        assert(v[0] != '%' && v[0] != '+') by {
            if v[0] == '%' {
                assert(v.contains('%'));
            }
            if v[0] == '+' {
                assert(v.contains('+'));
            }
        }
        vstd::utf8::char_u32_cast(v[0], v[0] as u32);
        assert((v[0] as u32) != 37 && (v[0] as u32) != 43);
        lemma_scalar_plain(v[0] as u32);
        let a = encode_scalar(v[0] as u32);
        let b = encode_utf8(rest);
        assert forall|i: int| 0 <= i < (a + b).len() implies #[trigger] (a + b)[i] != 37 && (a + b)[i] != 43 by {
            if i < a.len() {
                assert((a + b)[i] == a[i]);
            } else {
                assert((a + b)[i] == b[i - a.len()]);
            }
        }
    }
}

/// Text without `%` and `+` comes out of percent decoding unchanged, on the
/// command line and in the UI alike.
pub proof fn law_plain_text_decodes_to_itself(value: Seq<char>, d: Dialect)
    requires
        !value.contains('%'),
        !value.contains('+'),
    ensures
        percent_decoded(value, d) == Ok::<Seq<char>, Seq<char>>(value),
{
    lemma_encode_plain(value);
    lemma_plain_bytes(encode_utf8(value), d);
    encode_utf8_valid_utf8(value);
    encode_utf8_decode_utf8(value);
}

/// Neighbourhood ignores direction: `b` neighbours `a` exactly when `a`
/// neighbours `b`.
pub proof fn law_neighbours_symmetric(edges: Seq<Edge>, a: Seq<char>, b: Seq<char>)
    ensures
        adjacent(edges, a, b) <==> adjacent(edges, b, a),
{
    if adjacent(edges, a, b) {
        let i = choose|i: int|
            0 <= i < edges.len() && ((#[trigger] edges[i].from@ == a && edges[i].to@ == b) || (edges[i].to@ == a
                && edges[i].from@ == b));
        assert(edges[i].from@ == b && edges[i].to@ == a || edges[i].to@ == b && edges[i].from@ == a);
    }
    if adjacent(edges, b, a) {
        let i = choose|i: int|
            0 <= i < edges.len() && ((#[trigger] edges[i].from@ == b && edges[i].to@ == a) || (edges[i].to@ == b
                && edges[i].from@ == a));
        assert(edges[i].from@ == a && edges[i].to@ == b || edges[i].to@ == a && edges[i].from@ == b);
    }
}

/// A stored node is read back: after storing `n`, its id holds `n`, and every
/// other id keeps its node.
pub proof fn law_upsert_read_back(g: GraphView, n: NodeView, other: Seq<char>)
    requires
        sorted_keys(g.nodes),
    ensures
        has_key(upsert_v(g, n).nodes, n.id),
        value_of(upsert_v(g, n).nodes, n.id) == n,
        other != n.id ==> (has_key(upsert_v(g, n).nodes, other) <==> has_key(g.nodes, other)),
        other != n.id && has_key(g.nodes, other) ==> value_of(upsert_v(g, n).nodes, other) == value_of(g.nodes, other),
{
    let t = insert_entry(g.nodes, n.id, n);
    lemma_insert_entry(g.nodes, n.id, n);
    assert(forall|x: Seq<char>| has_key(t, x) <==> (has_key(g.nodes, x) || x == n.id));
    assert(has_key(t, n.id));
    assert(upsert_v(g, n).nodes == t);
}

/// A named member recorded for a node is in that node's member list
/// afterwards; the lists of other nodes are unchanged.
pub proof fn law_member_recorded(g: GraphView, id: Seq<char>, m: MemberView, other: Seq<char>)
    requires
        m.name.len() > 0,
    ensures
        member_v(g, id, m).members.dom().contains(id),
        has_member_v(member_v(g, id, m).members[id], m.name, m.kind),
        other != id ==> member_v(g, id, m).members.dom().contains(other) == g.members.dom().contains(other),
        other != id && g.members.dom().contains(other) ==> member_v(g, id, m).members[other] == g.members[other],
{
    let list = if g.members.dom().contains(id) { g.members[id] } else { Seq::empty() };
    if !has_member_v(list, m.name, m.kind) {
        let l2 = list.push(m);
        assert(l2[l2.len() - 1] == m);
        assert(has_member_v(l2, m.name, m.kind));
    }
}

/// A file that no recognizer takes leaves the scanned graph as it was.
pub proof fn law_unparsed_file_adds_nothing(files: Seq<SourceFile>, f: SourceFile)
    requires
        source_recognizer(f) == Recognizer::Unparsed,
    ensures
        scan_view(files.push(f)) == scan_view(files),
{
    assert(files.push(f).drop_last() =~= files);
    assert(source_ops(f) == Seq::<OpView>::empty());
}

/// In hotspot order, ties allowed.
pub open spec fn hot_sorted(s: Seq<NodeMetricView>) -> bool {
    forall|i: int, j: int| 0 <= i < j < s.len() ==> !hot_lt(#[trigger] s[j], #[trigger] s[i])
}

proof fn lemma_hot_not_below(x: NodeMetricView, a: NodeMetricView, b: NodeMetricView)
    requires
        !hot_lt(x, a),
        !hot_lt(a, b),
    ensures
        !hot_lt(x, b),
{
    if hot_lt(x, b) {
        if x.fan_in + x.fan_out == a.fan_in + a.fan_out && a.fan_in + a.fan_out == b.fan_in + b.fan_out {
            lemma_seq_lt_total(x.name, a.name);
            lemma_seq_lt_total(a.name, b.name);
            if seq_lt(a.name, x.name) && seq_lt(x.name, b.name) {
                lemma_seq_lt_transitive(a.name, x.name, b.name);
            }
        }
    }
}

proof fn lemma_hot_asymmetric(a: NodeMetricView, b: NodeMetricView)
    requires
        hot_lt(a, b),
    ensures
        !hot_lt(b, a),
{
    if a.fan_in + a.fan_out == b.fan_in + b.fan_out {
        lemma_seq_lt_asymmetric(a.name, b.name);
    }
}

proof fn lemma_insert_hot_facts(s: Seq<NodeMetricView>, x: NodeMetricView)
    requires
        hot_sorted(s),
    ensures
        hot_sorted(insert_hot(s, x)),
        insert_hot(s, x).len() == s.len() + 1,
        forall|i: int| 0 <= i < insert_hot(s, x).len() ==> #[trigger] insert_hot(s, x)[i] == x || s.contains(insert_hot(s, x)[i]),
    decreases s.len(),
{
    let r = insert_hot(s, x);
    if s.len() == 0 || !hot_lt(x, s.last()) {
        assert forall|i: int, j: int| 0 <= i < j < r.len() implies !hot_lt(#[trigger] r[j], #[trigger] r[i]) by {
            if j == s.len() {
                assert(r[i] == s[i]);
                if i < s.len() - 1 {
                    assert(!hot_lt(s[s.len() - 1], s[i]));
                    lemma_hot_not_below(x, s[s.len() - 1], s[i]);
                }
            } else {
                assert(r[i] == s[i] && r[j] == s[j]);
            }
        }
        assert forall|i: int| 0 <= i < r.len() implies #[trigger] r[i] == x || s.contains(r[i]) by {
            if i < s.len() {
                assert(r[i] == s[i]);
            }
        }
    } else {
        let t = s.drop_last();
        assert forall|i: int, j: int| 0 <= i < j < t.len() implies !hot_lt(#[trigger] t[j], #[trigger] t[i]) by {
            assert(t[i] == s[i] && t[j] == s[j]);
        }
        lemma_insert_hot_facts(t, x);
        let q = insert_hot(t, x);
        assert(r == q.push(s.last()));
        assert forall|i: int, j: int| 0 <= i < j < r.len() implies !hot_lt(#[trigger] r[j], #[trigger] r[i]) by {
            if j == q.len() {
                assert(r[i] == q[i]);
                if q[i] == x {
                    lemma_hot_asymmetric(x, s.last());
                } else {
                    assert(t.contains(q[i]));
                    let k = choose|k: int| 0 <= k < t.len() && t[k] == q[i];
                    assert(t[k] == s[k]);
                    assert(!hot_lt(s[s.len() - 1], s[k]));
                }
            } else {
                assert(r[i] == q[i] && r[j] == q[j]);
            }
        }
        assert forall|i: int| 0 <= i < r.len() implies #[trigger] r[i] == x || s.contains(r[i]) by {
            if i < q.len() {
                assert(r[i] == q[i]);
                if q[i] != x {
                    assert(t.contains(q[i]));
                    let k = choose|k: int| 0 <= k < t.len() && t[k] == q[i];
                    assert(s[k] == t[k]);
                }
            } else {
                assert(r[i] == s[s.len() - 1]);
            }
        }
    }
}

proof fn lemma_sort_hot_sorted(s: Seq<NodeMetricView>)
    ensures
        hot_sorted(sort_hot(s)),
    decreases s.len(),
{
    if s.len() > 0 {
        lemma_sort_hot_sorted(s.drop_last());
        lemma_insert_hot_facts(sort_hot(s.drop_last()), s.last());
    }
}

/// Hotspots are at most ten, ranked by fan-in plus fan-out, largest first.
pub proof fn law_hotspots_ranked(nodes: Seq<(Seq<char>, Node)>, edges: Seq<Edge>)
    ensures
        top_hotspots(nodes, edges).len() <= 10,
        forall|i: int, j: int|
            0 <= i < j < top_hotspots(nodes, edges).len() ==> (#[trigger] top_hotspots(nodes, edges)[i]).fan_in
                + top_hotspots(nodes, edges)[i].fan_out >= (#[trigger] top_hotspots(nodes, edges)[j]).fan_in
                + top_hotspots(nodes, edges)[j].fan_out,
{
    let sorted = sort_hot(crate::metrics::hotspot_candidates(nodes, edges));
    lemma_sort_hot_sorted(crate::metrics::hotspot_candidates(nodes, edges));
    let h = top_hotspots(nodes, edges);
    assert forall|i: int, j: int| 0 <= i < j < h.len() implies (#[trigger] h[i]).fan_in + h[i].fan_out >= (#[trigger] h[j]).fan_in
        + h[j].fan_out by {
        assert(h[i] == sorted[i] && h[j] == sorted[j]);
        assert(!hot_lt(sorted[j], sorted[i]));
    }
}


/// The successor lists of the cycle search are exactly the relevant import
/// links, and an id has a list only when it has some successor.
proof fn lemma_successors_exact(nodes: Seq<(Seq<char>, Node)>, edges: Seq<Edge>, a: Seq<char>, v: Seq<char>)
    ensures
        successors(import_successors(nodes, edges), a).contains(v) <==> import_link(nodes, edges, a, v),
        has_key(import_successors(nodes, edges), a) ==> successors(import_successors(nodes, edges), a).len() > 0,
    decreases edges.len(),
{
    if edges.len() > 0 {
        let t = edges.drop_last();
        let e = edges.last();
        let old_adj = import_successors(nodes, t);
        lemma_successors_exact(nodes, t, a, v);
        lemma_import_successors_sorted(nodes, t);
        let n = (edges.len() - 1) as int;
        assert(edges[n] == e);
        assert(import_link(nodes, t, a, v) ==> import_link(nodes, edges, a, v)) by {
            if import_link(nodes, t, a, v) {
                let i = choose|i: int| 0 <= i < t.len() && is_import(nodes, #[trigger] t[i]) && t[i].from@ == a && t[i].to@ == v;
                assert(edges[i] == t[i]);
            }
        }
        assert(import_link(nodes, edges, a, v) ==> (import_link(nodes, t, a, v) || (is_import(nodes, e) && e.from@ == a
            && e.to@ == v))) by {
            if import_link(nodes, edges, a, v) {
                let i = choose|i: int|
                    0 <= i < edges.len() && is_import(nodes, #[trigger] edges[i]) && edges[i].from@ == a && edges[i].to@ == v;
                if i < n {
                    assert(t[i] == edges[i]);
                }
            }
        }
        if is_import(nodes, e) {
            let l = successors(old_adj, e.from@).push(e.to@);
            lemma_insert_entry(old_adj, e.from@, l);
            let new_adj = insert_entry(old_adj, e.from@, l);
            assert(import_successors(nodes, edges) == new_adj);
            if a == e.from@ {
                assert(successors(new_adj, a) == l);
                assert(l.contains(v) <==> (successors(old_adj, a).contains(v) || v == e.to@)) by {
                    if l.contains(v) {
                        let j = choose|j: int| 0 <= j < l.len() && l[j] == v;
                        if j < l.len() - 1 {
                            assert(successors(old_adj, a)[j] == v);
                        }
                    }
                    if successors(old_adj, a).contains(v) {
                        let j = choose|j: int| 0 <= j < successors(old_adj, a).len() && successors(old_adj, a)[j] == v;
                        assert(l[j] == v);
                    }
                    assert(l[l.len() - 1] == e.to@);
                }
            } else {
                assert(has_key(new_adj, a) <==> has_key(old_adj, a));
                if has_key(old_adj, a) {
                    assert(value_of(new_adj, a) == value_of(old_adj, a));
                }
                assert(successors(new_adj, a) == successors(old_adj, a));
            }
        } else {
            assert(import_successors(nodes, edges) == old_adj);
        }
    }
}

/// An id of the search is finished: visited and no longer on the path.
pub open spec fn finished(s: SearchState, x: Seq<char>) -> bool {
    s.visited.contains(x) && !s.path.contains(x)
}

/// No finished id lies on an import cycle.
pub open spec fn no_finished_on_cycle(nodes: Seq<(Seq<char>, Node)>, edges: Seq<Edge>, s: SearchState) -> bool {
    forall|c: Seq<Seq<char>>, k: int|
        #![trigger is_import_cycle(nodes, edges, c), c[k]]
        is_import_cycle(nodes, edges, c) && 0 <= k < c.len() ==> !finished(s, c[k])
}

/// The path is visited and follows import links, and every cycle found is an import cycle.
pub open spec fn search_sound(nodes: Seq<(Seq<char>, Node)>, edges: Seq<Edge>, s: SearchState) -> bool {
    &&& forall|j: int| 0 <= j < s.path.len() ==> s.visited.contains(#[trigger] s.path[j])
    &&& is_import_path(nodes, edges, s.path)
    &&& forall|p: int| 0 <= p < s.cycles.len() ==> is_import_cycle(nodes, edges, #[trigger] s.cycles[p])
}

proof fn lemma_first_pos_found(s: Seq<Seq<char>>, x: Seq<char>)
    requires
        s.contains(x),
    ensures
        0 <= first_pos(s, x) < s.len(),
        s[first_pos(s, x)] == x,
    decreases s.len(),
{
    if s[0] != x {
        let j = choose|j: int| 0 <= j < s.len() && s[j] == x;
        assert(s.skip(1)[j - 1] == x);
        lemma_first_pos_found(s.skip(1), x);
        assert(s.skip(1)[first_pos(s.skip(1), x)] == s[first_pos(s.skip(1), x) + 1]);
    }
}

/// The path from the first `next` to the end, closed by an edge back to `next`, is an import cycle.
proof fn lemma_closed_cycle(nodes: Seq<(Seq<char>, Node)>, edges: Seq<Edge>, path: Seq<Seq<char>>, next: Seq<char>)
    requires
        is_import_path(nodes, edges, path),
        path.contains(next),
        import_link(nodes, edges, path.last(), next),
    ensures
        is_import_cycle(nodes, edges, path.skip(first_pos(path, next))),
{
    lemma_first_pos_found(path, next);
    let f = first_pos(path, next);
    let c = path.skip(f);
    assert forall|k: int| 0 <= k < c.len() - 1 implies import_link(nodes, edges, #[trigger] c[k], c[k + 1]) by {
        assert(c[k] == path[f + k] && c[k + 1] == path[f + k + 1]);
    }
    assert(c.last() == path.last());
    assert(c[0] == next);
}

/// Visiting an unvisited import endpoint keeps the path, visits the node,
/// keeps the search sound, and, while no cycle has been found, finishes no
/// id of an import cycle.
proof fn lemma_visit_sound(nodes: Seq<(Seq<char>, Node)>, edges: Seq<Edge>, node: Seq<char>, st: SearchState, fuel: nat)
    requires
        fuel > unseen(nodes, edges, st.visited),
        !st.visited.contains(node),
        import_endpoint(nodes, edges, node),
        search_sound(nodes, edges, st),
        st.path.len() > 0 ==> import_link(nodes, edges, st.path.last(), node),
    ensures
        visit(import_successors(nodes, edges), node, st, fuel).path == st.path,
        st.visited.subset_of(visit(import_successors(nodes, edges), node, st, fuel).visited),
        visit(import_successors(nodes, edges), node, st, fuel).visited.contains(node),
        search_sound(nodes, edges, visit(import_successors(nodes, edges), node, st, fuel)),
        st.cycles.len() <= visit(import_successors(nodes, edges), node, st, fuel).cycles.len(),
        visit(import_successors(nodes, edges), node, st, fuel).cycles.len() == 0 ==> (no_finished_on_cycle(nodes, edges, st)
            ==> no_finished_on_cycle(nodes, edges, visit(import_successors(nodes, edges), node, st, fuel))),
    decreases fuel, 0nat, 0int,
{
    let adj = import_successors(nodes, edges);
    let entered = SearchState { visited: st.visited.insert(node), path: st.path.push(node), cycles: st.cycles };
    lemma_unseen_mono(nodes, edges, st.visited, entered.visited, node);
    assert(search_sound(nodes, edges, entered)) by {
        assert forall|k: int| 0 <= k < entered.path.len() - 1 implies import_link(
            nodes,
            edges,
            #[trigger] entered.path[k],
            entered.path[k + 1],
        ) by {
            if k < st.path.len() - 1 {
                assert(entered.path[k] == st.path[k] && entered.path[k + 1] == st.path[k + 1]);
            } else {
                assert(entered.path[k] == st.path.last());
            }
        }
        assert forall|j: int| 0 <= j < entered.path.len() implies entered.visited.contains(#[trigger] entered.path[j]) by {
            if j < st.path.len() {
                assert(entered.path[j] == st.path[j]);
            }
        }
    }
    let succ = successors(adj, node);
    assert forall|j: int| 0 <= j < succ.len() implies import_link(nodes, edges, node, #[trigger] succ[j]) by {
        lemma_successors_exact(nodes, edges, node, succ[j]);
    }
    assert(entered.path.last() == node);
    lemma_follow_sound(nodes, edges, node, succ, 0, entered, (fuel - 1) as nat);
    let done = follow(adj, succ, 0, entered, (fuel - 1) as nat);
    let r = visit(adj, node, st, fuel);
    assert(r == SearchState { path: done.path.drop_last(), ..done });
    assert(entered.path.drop_last() =~= st.path);
    assert(!st.path.contains(node)) by {
        if st.path.contains(node) {
            let j = choose|j: int| 0 <= j < st.path.len() && st.path[j] == node;
            assert(st.visited.contains(st.path[j]));
        }
    }
    if r.cycles.len() == 0 && no_finished_on_cycle(nodes, edges, st) {
        assert(no_finished_on_cycle(nodes, edges, entered)) by {
            assert forall|x: Seq<char>| finished(entered, x) implies finished(st, x) by {
                assert(entered.path[entered.path.len() - 1] == node);
                if st.path.contains(x) {
                    let j = choose|j: int| 0 <= j < st.path.len() && st.path[j] == x;
                    assert(entered.path[j] == x);
                }
            }
        }
        assert forall|x: Seq<char>| x != node && finished(r, x) implies finished(done, x) by {
            if done.path.contains(x) {
                let j = choose|j: int| 0 <= j < done.path.len() && done.path[j] == x;
                if j < st.path.len() {
                    assert(r.path[j] == x);
                } else {
                    assert(done.path[j] == node);
                }
            }
        }
        assert forall|c: Seq<Seq<char>>, k: int| is_import_cycle(nodes, edges, c) && 0 <= k < c.len() implies !finished(
            r,
            #[trigger] c[k],
        ) by {
            if c[k] != node {
                assert(!finished(done, c[k]));
            } else {
                let k2 = if k + 1 < c.len() { k + 1 } else { 0 };
                assert(import_link(nodes, edges, node, c[k2])) by {
                    if k + 1 < c.len() {
                        assert(import_link(nodes, edges, c[k], c[k + 1]));
                    } else {
                        assert(c.last() == c[k]);
                    }
                }
                lemma_successors_exact(nodes, edges, node, c[k2]);
                let j = choose|j: int| 0 <= j < succ.len() && succ[j] == c[k2];
                assert(finished(done, succ[j]));
                assert(!finished(done, c[k2]));
            }
        }
    }
}

/// Following successors from position `i` keeps the path, keeps the search
/// sound, and, while no cycle has been found, finishes each of them and no id
/// of an import cycle.
proof fn lemma_follow_sound(
    nodes: Seq<(Seq<char>, Node)>,
    edges: Seq<Edge>,
    u: Seq<char>,
    succ: Seq<Seq<char>>,
    i: int,
    st: SearchState,
    fuel: nat,
)
    requires
        0 <= i,
        forall|j: int| 0 <= j < succ.len() ==> import_link(nodes, edges, u, #[trigger] succ[j]),
        st.path.len() > 0,
        st.path.last() == u,
        fuel > unseen(nodes, edges, st.visited),
        search_sound(nodes, edges, st),
    ensures
        follow(import_successors(nodes, edges), succ, i, st, fuel).path == st.path,
        st.visited.subset_of(follow(import_successors(nodes, edges), succ, i, st, fuel).visited),
        search_sound(nodes, edges, follow(import_successors(nodes, edges), succ, i, st, fuel)),
        st.cycles.len() <= follow(import_successors(nodes, edges), succ, i, st, fuel).cycles.len(),
        follow(import_successors(nodes, edges), succ, i, st, fuel).cycles.len() == 0 ==> (no_finished_on_cycle(
            nodes,
            edges,
            st,
        ) ==> no_finished_on_cycle(nodes, edges, follow(import_successors(nodes, edges), succ, i, st, fuel))),
        follow(import_successors(nodes, edges), succ, i, st, fuel).cycles.len() == 0 ==> forall|j: int|
            i <= j < succ.len() ==> finished(follow(import_successors(nodes, edges), succ, i, st, fuel), #[trigger] succ[j]),
    decreases fuel, 1nat, succ.len() - i,
{
    let adj = import_successors(nodes, edges);
    if i < succ.len() {
        let next = succ[i];
        assert(import_link(nodes, edges, u, next));
        assert(import_endpoint(nodes, edges, next)) by {
            let w = choose|w: int|
                0 <= w < edges.len() && is_import(nodes, #[trigger] edges[w]) && edges[w].from@ == u && edges[w].to@ == next;
        }
        let st2 = if !st.visited.contains(next) {
            visit(adj, next, st, fuel)
        } else if st.path.contains(next) {
            crate::metrics::close_cycle(st, next)
        } else {
            st
        };
        if !st.visited.contains(next) {
            lemma_visit_sound(nodes, edges, next, st, fuel);
            assert(!st.path.contains(next)) by {
                if st.path.contains(next) {
                    let j = choose|j: int| 0 <= j < st.path.len() && st.path[j] == next;
                    assert(st.visited.contains(st.path[j]));
                }
            }
            assert(finished(st2, next));
        } else if st.path.contains(next) {
            lemma_closed_cycle(nodes, edges, st.path, next);
            let c = st.path.skip(first_pos(st.path, next));
            if !(exists|p: int| 0 <= p < st.cycles.len() && crate::metrics::is_rotation(#[trigger] st.cycles[p], c)) {
                assert(st2.cycles == st.cycles.push(c));
                assert forall|p: int| 0 <= p < st2.cycles.len() implies is_import_cycle(nodes, edges, #[trigger] st2.cycles[p]) by {
                    if p < st.cycles.len() {
                        assert(st2.cycles[p] == st.cycles[p]);
                    }
                }
            }
            assert(st2.cycles.len() > 0);
        }
        lemma_unseen_mono(nodes, edges, st.visited, st2.visited, next);
        lemma_follow_sound(nodes, edges, u, succ, i + 1, st2, fuel);
        let r = follow(adj, succ, i + 1, st2, fuel);
        assert(follow(adj, succ, i, st, fuel) == r);
        if r.cycles.len() == 0 {
            assert(finished(r, next));
        }
    }
}

/// The whole search from the given starts keeps the path empty, visits every
/// start, keeps the search sound, and, while no cycle has been found,
/// finishes no id of an import cycle.
proof fn lemma_search_all_sound(nodes: Seq<(Seq<char>, Node)>, edges: Seq<Edge>, starts: Seq<Seq<char>>, st: SearchState, fuel: nat)
    requires
        forall|j: int| 0 <= j < starts.len() ==> import_endpoint(nodes, edges, #[trigger] starts[j]),
        fuel > unseen(nodes, edges, Set::empty()),
        st.path.len() == 0,
        search_sound(nodes, edges, st),
    ensures
        search_all(import_successors(nodes, edges), starts, st, fuel).path.len() == 0,
        forall|j: int| 0 <= j < starts.len() ==> search_all(import_successors(nodes, edges), starts, st, fuel).visited.contains(
            #[trigger] starts[j],
        ),
        search_sound(nodes, edges, search_all(import_successors(nodes, edges), starts, st, fuel)),
        search_all(import_successors(nodes, edges), starts, st, fuel).cycles.len() == 0 ==> (no_finished_on_cycle(
            nodes,
            edges,
            st,
        ) ==> no_finished_on_cycle(nodes, edges, search_all(import_successors(nodes, edges), starts, st, fuel))),
    decreases starts.len(),
{
    let adj = import_successors(nodes, edges);
    if starts.len() > 0 {
        let t = starts.drop_last();
        assert forall|j: int| 0 <= j < t.len() implies import_endpoint(nodes, edges, #[trigger] t[j]) by {
            assert(t[j] == starts[j]);
        }
        lemma_search_all_sound(nodes, edges, t, st, fuel);
        let s = search_all(adj, t, st, fuel);
        let x = starts.last();
        assert(starts[starts.len() - 1] == x);
        if !s.visited.contains(x) {
            lemma_unseen_mono(nodes, edges, Set::empty(), s.visited, x);
            lemma_visit_sound(nodes, edges, x, s, fuel);
        }
        let r = search_all(adj, starts, st, fuel);
        assert forall|j: int| 0 <= j < starts.len() implies r.visited.contains(#[trigger] starts[j]) by {
            if j < t.len() {
                assert(t[j] == starts[j]);
            }
        }
    }
}

/// Metrics report no cycle exactly when the relevant import edges form none,
/// and every cycle they report is an import cycle.
pub proof fn law_cycles_found_exactly_when_cyclic(nodes: Seq<(Seq<char>, Node)>, edges: Seq<Edge>)
    ensures
        found_cycles(nodes, edges).len() == 0 <==> !exists|c: Seq<Seq<char>>| is_import_cycle(nodes, edges, c),
        forall|p: int| 0 <= p < found_cycles(nodes, edges).len() ==> is_import_cycle(nodes, edges, #[trigger] found_cycles(nodes, edges)[p]),
{
    let adj = import_successors(nodes, edges);
    let starts = adj.map_values(|e: (Seq<char>, Seq<Seq<char>>)| e.0);
    let st0 = SearchState { visited: Set::empty(), path: Seq::empty(), cycles: Seq::empty() };
    let fuel = unseen(nodes, edges, Set::empty()) + 1;
    assert forall|j: int| 0 <= j < starts.len() implies import_endpoint(nodes, edges, #[trigger] starts[j]) by {
        let a = adj[j].0;
        assert(starts[j] == a);
        assert(has_key(adj, a));
        lemma_successors_exact(nodes, edges, a, successors(adj, a)[0]);
        assert(successors(adj, a).contains(successors(adj, a)[0]));
        let w = choose|w: int|
            0 <= w < edges.len() && is_import(nodes, #[trigger] edges[w]) && edges[w].from@ == a && edges[w].to@ == successors(adj, a)[0];
    }
    lemma_search_all_sound(nodes, edges, starts, st0, fuel);
    let s = search_all(adj, starts, st0, fuel);
    assert(found_cycles(nodes, edges) == s.cycles);
    if s.cycles.len() == 0 {
        assert forall|c: Seq<Seq<char>>| !is_import_cycle(nodes, edges, c) by {
            if is_import_cycle(nodes, edges, c) {
                let k2 = if c.len() > 1 { 1int } else { 0int };
                assert(import_link(nodes, edges, c[0], c[k2])) by {
                    if c.len() > 1 {
                        assert(import_link(nodes, edges, c[0int], c[0int + 1]));
                    }
                }
                lemma_successors_exact(nodes, edges, c[0], c[k2]);
                assert(successors(adj, c[0]).len() > 0);
                assert(has_key(adj, c[0]));
                let j = choose|j: int| 0 <= j < adj.len() && #[trigger] adj[j].0 == c[0];
                assert(starts[j] == c[0]);
                assert(s.visited.contains(starts[j]));
                assert(finished(s, c[0]));
                assert(!finished(s, c[0]));
            }
        }
    } else {
        assert(is_import_cycle(nodes, edges, s.cycles[0]));
    }
}

/// Texts separated by commas, read from the front.
pub open spec fn comma_joined(items: Seq<Seq<char>>) -> Seq<char>
    decreases items.len(),
{
    if items.len() == 0 {
        Seq::empty()
    } else if items.len() == 1 {
        items[0]
    } else {
        items[0] + seq![','] + comma_joined(items.skip(1))
    }
}

proof fn lemma_joined_push(items: Seq<Seq<char>>, x: Seq<char>)
    ensures
        comma_joined(items.push(x)) == comma_joined(items) + (if items.len() > 0 {
            seq![',']
        } else {
            Seq::<char>::empty()
        }) + x,
    decreases items.len(),
{
    if items.len() == 0 {
        assert(items.push(x) =~= seq![x]);
        assert(Seq::<char>::empty() + Seq::<char>::empty() + x =~= x);
    } else if items.len() == 1 {
        let p = items.push(x);
        assert(p.skip(1) =~= seq![x]);
        assert(comma_joined(p.skip(1)) == x);
    } else {
        let p = items.push(x);
        assert(p.skip(1) =~= items.skip(1).push(x));
        lemma_joined_push(items.skip(1), x);
        assert(p[0] == items[0]);
        assert(comma_joined(p) =~= comma_joined(items) + seq![','] + x);
    }
}

/// The JSON object of each stored node, in stored order.
pub open spec fn node_objects(g: Graph) -> Seq<Seq<char>> {
    g.nodes@.map_values(|e: (Seq<char>, Node)| node_json(e.1, members_of(g.members@, e.1.id@)))
}

/// The JSON object of each edge, in edge order.
pub open spec fn edge_objects(g: Graph) -> Seq<Seq<char>> {
    g.edges@.map_values(|e: Edge| edge_json(e))
}

proof fn lemma_node_items_joined(nodes: Seq<(Seq<char>, Node)>, members: Seq<(Seq<char>, Vec<Member>)>)
    ensures
        node_items(nodes, members) == comma_joined(
            nodes.map_values(|e: (Seq<char>, Node)| node_json(e.1, members_of(members, e.1.id@))),
        ),
    decreases nodes.len(),
{
    let f = |e: (Seq<char>, Node)| node_json(e.1, members_of(members, e.1.id@));
    if nodes.len() > 0 {
        let t = nodes.drop_last();
        lemma_node_items_joined(t, members);
        assert(nodes.map_values(f) =~= t.map_values(f).push(f(nodes.last())));
        lemma_joined_push(t.map_values(f), f(nodes.last()));
    } else {
        assert(nodes.map_values(f) =~= Seq::<Seq<char>>::empty());
    }
}

proof fn lemma_edge_items_joined(edges: Seq<Edge>)
    ensures
        edge_items(edges) == comma_joined(edges.map_values(|e: Edge| edge_json(e))),
    decreases edges.len(),
{
    let f = |e: Edge| edge_json(e);
    if edges.len() > 0 {
        let t = edges.drop_last();
        lemma_edge_items_joined(t);
        assert(edges.map_values(f) =~= t.map_values(f).push(f(edges.last())));
        lemma_joined_push(t.map_values(f), f(edges.last()));
    } else {
        assert(edges.map_values(f) =~= Seq::<Seq<char>>::empty());
    }
}

/// The JSON text of a graph is one object per node, in stored (id) order,
/// each with the node's members, then one object per edge in edge order,
/// separated by commas; it is a function of the graph alone.
pub proof fn law_json_structure(g: Graph)
    ensures
        graph_json(g) == "{\"nodes\":["@ + comma_joined(node_objects(g)) + "],\"edges\":["@ + comma_joined(edge_objects(g))
            + "]}"@,
{
    lemma_node_items_joined(g.nodes@, g.members@);
    lemma_edge_items_joined(g.edges@);
}

} // verus!
