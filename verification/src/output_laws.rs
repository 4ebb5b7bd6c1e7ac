//! Properties of what rule checking, metrics, the parsers and the diagram
//! renderings report, stated in terms of the graph they are given.
use crate::keymap::{has_key, value_of};
use crate::metrics::{degree, is_orphan, orphan_ids};
use crate::model::{Edge, EdgeKind, Node, NodeKind, RuleView, ViolationView};
use crate::rules::{all_hits, dedup_violations, insert_sorted, rule_hits, sort_violations};
use crate::graph::Graph;
use crate::model::edge_kind_name;
use crate::ops::OpView;
use crate::render::{decimal, is_diagram_id, mermaid_arrow, mermaid_edge, mermaid_label, mermaid_safe};
use crate::svg::{edge_color, edge_dash, edge_marker, edge_svg, edge_tail, node_height_of};
use crate::parsers::{header_ops, keyword_link, links_to};
use crate::recognize::{keyword_name, keyword_names};
use crate::spans::BraceLanguage;
use vstd::prelude::*;

verus! {

/// An import edge between two known nodes whose layers are the rule's source
/// and target layers.
pub open spec fn crosses_forbidden_layers(nodes: Seq<(Seq<char>, Node)>, e: Edge, rule: RuleView) -> bool {
    &&& e.kind == EdgeKind::Imports
    &&& has_key(nodes, e.from@)
    &&& has_key(nodes, e.to@)
    &&& value_of(nodes, e.from@)@.layer == rule.from
    &&& value_of(nodes, e.to@)@.layer == rule.to
}

/// What checking reports for `rules` over a graph.
pub open spec fn reported(nodes: Seq<(Seq<char>, Node)>, edges: Seq<Edge>, rules: Seq<RuleView>) -> Seq<ViolationView> {
    dedup_violations(sort_violations(all_hits(nodes, edges, rules)))
}

proof fn lemma_rule_hits_sound(nodes: Seq<(Seq<char>, Node)>, all: Seq<Edge>, edges: Seq<Edge>, rule: RuleView, v: ViolationView)
    requires
        rule_hits(nodes, all, edges, rule).contains(v),
    ensures
        rule.enabled,
        v.rule_id == rule.id,
        rule.rule_type == "forbidden_import"@ ==> exists|i: int|
            0 <= i < edges.len() && crosses_forbidden_layers(nodes, #[trigger] edges[i], rule) && v.subject == value_of(
                nodes,
                edges[i].from@,
            )@.path,
    decreases edges.len(),
{
    let t = edges.drop_last();
    let rest = rule_hits(nodes, all, t, rule);
    let n = edges.len() - 1;
    if rest.contains(v) {
        lemma_rule_hits_sound(nodes, all, t, rule, v);
        if rule.rule_type == "forbidden_import"@ {
            let i = choose|i: int|
                0 <= i < t.len() && crosses_forbidden_layers(nodes, #[trigger] t[i], rule) && v.subject == value_of(
                    nodes,
                    t[i].from@,
                )@.path;
            assert(edges[i] == t[i]);
        }
    } else {
        let r = rule_hits(nodes, all, edges, rule);
        assert(edges.len() > 0) by {
            if edges.len() == 0 {
                assert(r.len() == 0);
            }
        }
        assert(r != rest) by {
            if r == rest {
                assert(rest.contains(v));
            }
        }
        let j = choose|j: int| 0 <= j < r.len() && r[j] == v;
        assert(r.len() == rest.len() + 1);
        if j < rest.len() {
            assert(r[j] == rest[j]);
            assert(rest.contains(v));
        }
        assert(edges[n] == edges.last());
    }
}

proof fn lemma_rule_hits_complete(nodes: Seq<(Seq<char>, Node)>, all: Seq<Edge>, edges: Seq<Edge>, rule: RuleView, i: int)
    requires
        rule.enabled,
        rule.rule_type == "forbidden_import"@,
        0 <= i < edges.len(),
        crosses_forbidden_layers(nodes, edges[i], rule),
    ensures
        exists|v: ViolationView|
            rule_hits(nodes, all, edges, rule).contains(v) && v.rule_id == rule.id && v.subject == value_of(
                nodes,
                edges[i].from@,
            )@.path,
    decreases edges.len(),
{
    let t = edges.drop_last();
    let rest = rule_hits(nodes, all, t, rule);
    let r = rule_hits(nodes, all, edges, rule);
    assert(forall|x: ViolationView| rest.contains(x) ==> r.contains(x)) by {
        assert forall|x: ViolationView| rest.contains(x) implies r.contains(x) by {
            let k = choose|k: int| 0 <= k < rest.len() && rest[k] == x;
            if r != rest {
                assert(r[k] == rest[k]);
            }
        }
    }
    let path = value_of(nodes, edges[i].from@)@.path;
    if i < edges.len() - 1 {
        assert(t[i] == edges[i]);
        lemma_rule_hits_complete(nodes, all, t, rule, i);
        let v = choose|v: ViolationView| rest.contains(v) && v.rule_id == rule.id && v.subject == path;
        assert(r.contains(v));
    } else {
        assert(edges.last() == edges[i]);
        let h = crate::rules::forbidden_hit(nodes, edges.last(), rule);
        assert(h is Some);
        assert(r == rest.push(h->0));
        let v = h->0;
        assert(r[r.len() - 1] == v);
        assert(r.contains(v) && v.rule_id == rule.id && v.subject == path);
    }
}

proof fn lemma_all_hits_sound(nodes: Seq<(Seq<char>, Node)>, edges: Seq<Edge>, rules: Seq<RuleView>, v: ViolationView)
    requires
        all_hits(nodes, edges, rules).contains(v),
    ensures
        exists|j: int| 0 <= j < rules.len() && rule_hits(nodes, edges, edges, #[trigger] rules[j]).contains(v),
    decreases rules.len(),
{
    let t = rules.drop_last();
    let a = all_hits(nodes, edges, t);
    let b = rule_hits(nodes, edges, edges, rules.last());
    assert(rules.len() > 0);
    let k = choose|k: int| 0 <= k < (a + b).len() && (a + b)[k] == v;
    if k < a.len() {
        assert(a[k] == v);
        lemma_all_hits_sound(nodes, edges, t, v);
        let j = choose|j: int| 0 <= j < t.len() && rule_hits(nodes, edges, edges, #[trigger] t[j]).contains(v);
        assert(rules[j] == t[j]);
    } else {
        assert(b[k - a.len()] == v);
        assert(rules[rules.len() - 1] == rules.last());
    }
}

proof fn lemma_all_hits_complete(nodes: Seq<(Seq<char>, Node)>, edges: Seq<Edge>, rules: Seq<RuleView>, j: int, v: ViolationView)
    requires
        0 <= j < rules.len(),
        rule_hits(nodes, edges, edges, rules[j]).contains(v),
    ensures
        all_hits(nodes, edges, rules).contains(v),
    decreases rules.len(),
{
    let t = rules.drop_last();
    let a = all_hits(nodes, edges, t);
    let b = rule_hits(nodes, edges, edges, rules.last());
    if j < rules.len() - 1 {
        assert(t[j] == rules[j]);
        lemma_all_hits_complete(nodes, edges, t, j, v);
        let k = choose|k: int| 0 <= k < a.len() && a[k] == v;
        assert((a + b)[k] == v);
    } else {
        assert(rules[j] == rules.last());
        let k = choose|k: int| 0 <= k < b.len() && b[k] == v;
        assert((a + b)[a.len() + k] == v);
    }
}

proof fn lemma_insert_sorted_same(s: Seq<ViolationView>, x: ViolationView, y: ViolationView)
    ensures
        insert_sorted(s, x).contains(y) <==> (y == x || s.contains(y)),
    decreases s.len(),
{
    let r = insert_sorted(s, x);
    if s.len() == 0 || !crate::rules::violation_lt(x, s.last()) {
        assert(r == s.push(x));
        if s.contains(y) {
            let k = choose|k: int| 0 <= k < s.len() && s[k] == y;
            assert(r[k] == y);
        }
        if r.contains(y) {
            let k = choose|k: int| 0 <= k < r.len() && r[k] == y;
            if k < s.len() {
                assert(s[k] == y);
            }
        }
        assert(r[s.len() as int] == x);
    } else {
        let t = s.drop_last();
        lemma_insert_sorted_same(t, x, y);
        let q = insert_sorted(t, x);
        assert(r == q.push(s.last()));
        if s.contains(y) {
            let k = choose|k: int| 0 <= k < s.len() && s[k] == y;
            if k < t.len() {
                assert(t[k] == y);
                let m = choose|m: int| 0 <= m < q.len() && q[m] == y;
                assert(r[m] == y);
            } else {
                assert(r[q.len() as int] == y);
            }
        }
        if y == x {
            let m = choose|m: int| 0 <= m < q.len() && q[m] == y;
            assert(r[m] == y);
        }
        if r.contains(y) {
            let k = choose|k: int| 0 <= k < r.len() && r[k] == y;
            if k < q.len() {
                assert(q[k] == y);
                if y != x {
                    let m = choose|m: int| 0 <= m < t.len() && t[m] == y;
                    assert(s[m] == y);
                }
            } else {
                assert(s[s.len() - 1] == y);
            }
        }
    }
}

proof fn lemma_sort_same(s: Seq<ViolationView>, y: ViolationView)
    ensures
        sort_violations(s).contains(y) <==> s.contains(y),
    decreases s.len(),
{
    if s.len() > 0 {
        let t = s.drop_last();
        lemma_sort_same(t, y);
        lemma_insert_sorted_same(sort_violations(t), s.last(), y);
        if s.contains(y) && y != s.last() {
            let k = choose|k: int| 0 <= k < s.len() && s[k] == y;
            assert(t[k] == y);
        }
        if t.contains(y) {
            let k = choose|k: int| 0 <= k < t.len() && t[k] == y;
            assert(s[k] == y);
        }
        assert(s[s.len() - 1] == s.last());
    }
}

proof fn lemma_dedup_sound(s: Seq<ViolationView>, y: ViolationView)
    requires
        dedup_violations(s).contains(y),
    ensures
        s.contains(y),
    decreases s.len(),
{
    let t = s.drop_last();
    let r = dedup_violations(t);
    assert(s.len() > 0);
    if r.contains(y) {
        lemma_dedup_sound(t, y);
        let k = choose|k: int| 0 <= k < t.len() && t[k] == y;
        assert(s[k] == y);
    } else {
        let d = dedup_violations(s);
        let k = choose|k: int| 0 <= k < d.len() && d[k] == y;
        if d == r {
            assert(r.contains(y));
        } else {
            assert(d == r.push(s.last()));
            if k < r.len() {
                assert(r[k] == y);
            }
            assert(s[s.len() - 1] == y);
        }
    }
}

proof fn lemma_dedup_complete(s: Seq<ViolationView>, x: ViolationView)
    requires
        s.contains(x),
    ensures
        exists|y: ViolationView| dedup_violations(s).contains(y) && y.rule_id == x.rule_id && y.subject == x.subject,
    decreases s.len(),
{
    let t = s.drop_last();
    let r = dedup_violations(t);
    let d = dedup_violations(s);
    assert(forall|z: ViolationView| r.contains(z) ==> d.contains(z)) by {
        assert forall|z: ViolationView| r.contains(z) implies d.contains(z) by {
            let k = choose|k: int| 0 <= k < r.len() && r[k] == z;
            if d != r {
                assert(d[k] == z);
            }
        }
    }
    if x == s.last() {
        if r.len() > 0 && r.last().rule_id == x.rule_id && r.last().subject == x.subject {
            assert(r[r.len() - 1] == r.last());
            assert(r.contains(r.last()));
            assert(d.contains(r.last()));
        } else {
            assert(d == r.push(x));
            assert(d[d.len() - 1] == x);
            assert(d.contains(x));
        }
    } else {
        let k = choose|k: int| 0 <= k < s.len() && s[k] == x;
        assert(k < t.len());
        assert(t[k] == x);
        lemma_dedup_complete(t, x);
        let y = choose|y: ViolationView| r.contains(y) && y.rule_id == x.rule_id && y.subject == x.subject;
        assert(d.contains(y));
    }
}

/// A forbidden-import rule reports an import only where the importing node's
/// layer is the rule's source layer and the imported node's layer is its
/// target layer, and reports every such import: each violation checking
/// reports belongs to an enabled rule, a forbidden-import violation names the
/// path of the importing node of such an edge, and every such edge of every
/// enabled forbidden-import rule is reported under the rule's id and that path.
pub proof fn law_forbidden_imports_between_the_named_layers(
    nodes: Seq<(Seq<char>, Node)>,
    edges: Seq<Edge>,
    rules: Seq<RuleView>,
)
    ensures
        forall|v: ViolationView|
            #![trigger reported(nodes, edges, rules).contains(v)]
            reported(nodes, edges, rules).contains(v) ==> exists|j: int|
                0 <= j < rules.len() && (#[trigger] rules[j]).enabled && v.rule_id == rules[j].id && (rules[j].rule_type
                    == "forbidden_import"@ ==> exists|i: int|
                    0 <= i < edges.len() && crosses_forbidden_layers(nodes, #[trigger] edges[i], rules[j]) && v.subject
                        == value_of(nodes, edges[i].from@)@.path),
        forall|j: int, i: int|
            0 <= j < rules.len() && 0 <= i < edges.len() && (#[trigger] rules[j]).enabled && rules[j].rule_type
                == "forbidden_import"@ && crosses_forbidden_layers(nodes, #[trigger] edges[i], rules[j]) ==> exists|v: ViolationView|
                reported(nodes, edges, rules).contains(v) && v.rule_id == rules[j].id && v.subject == value_of(
                    nodes,
                    edges[i].from@,
                )@.path,
{
    let hits = all_hits(nodes, edges, rules);
    assert forall|v: ViolationView| #![trigger reported(nodes, edges, rules).contains(v)]
        reported(nodes, edges, rules).contains(v) implies exists|j: int|
            0 <= j < rules.len() && (#[trigger] rules[j]).enabled && v.rule_id == rules[j].id && (rules[j].rule_type
                == "forbidden_import"@ ==> exists|i: int|
                0 <= i < edges.len() && crosses_forbidden_layers(nodes, #[trigger] edges[i], rules[j]) && v.subject
                    == value_of(nodes, edges[i].from@)@.path) by {
        lemma_dedup_sound(sort_violations(hits), v);
        lemma_sort_same(hits, v);
        lemma_all_hits_sound(nodes, edges, rules, v);
        let j = choose|j: int| 0 <= j < rules.len() && rule_hits(nodes, edges, edges, #[trigger] rules[j]).contains(v);
        lemma_rule_hits_sound(nodes, edges, edges, rules[j], v);
    }
    assert forall|j: int, i: int|
        0 <= j < rules.len() && 0 <= i < edges.len() && (#[trigger] rules[j]).enabled && rules[j].rule_type
            == "forbidden_import"@ && crosses_forbidden_layers(nodes, #[trigger] edges[i], rules[j]) implies exists|v: ViolationView|
            reported(nodes, edges, rules).contains(v) && v.rule_id == rules[j].id && v.subject == value_of(
                nodes,
                edges[i].from@,
            )@.path by {
        lemma_rule_hits_complete(nodes, edges, edges, rules[j], i);
        let x = choose|x: ViolationView|
            rule_hits(nodes, edges, edges, rules[j]).contains(x) && x.rule_id == rules[j].id && x.subject == value_of(
                nodes,
                edges[i].from@,
            )@.path;
        lemma_all_hits_complete(nodes, edges, rules, j, x);
        lemma_sort_same(hits, x);
        lemma_dedup_complete(sort_violations(hits), x);
        let y = choose|y: ViolationView|
            dedup_violations(sort_violations(hits)).contains(y) && y.rule_id == x.rule_id && y.subject == x.subject;
        assert(reported(nodes, edges, rules).contains(y));
    }
}

/// Some edge other than a containment edge, between two known nodes, starts
/// or ends at `x`.
pub open spec fn touched(nodes: Seq<(Seq<char>, Node)>, edges: Seq<Edge>, x: Seq<char>) -> bool {
    exists|i: int|
        0 <= i < edges.len() && (#[trigger] edges[i]).kind != EdgeKind::Contains && has_key(nodes, edges[i].from@) && has_key(
            nodes,
            edges[i].to@,
        ) && (edges[i].from@ == x || edges[i].to@ == x)
}

proof fn lemma_untouched_degrees(nodes: Seq<(Seq<char>, Node)>, edges: Seq<Edge>, x: Seq<char>)
    ensures
        (degree(nodes, edges, x, true) == 0 && degree(nodes, edges, x, false) == 0) <==> !touched(nodes, edges, x),
    decreases edges.len(),
{
    if edges.len() > 0 {
        let t = edges.drop_last();
        lemma_untouched_degrees(nodes, t, x);
        let n = edges.len() - 1;
        assert(edges[n] == edges.last());
        if touched(nodes, t, x) {
            let i = choose|i: int|
                0 <= i < t.len() && (#[trigger] t[i]).kind != EdgeKind::Contains && has_key(nodes, t[i].from@) && has_key(
                    nodes,
                    t[i].to@,
                ) && (t[i].from@ == x || t[i].to@ == x);
            assert(edges[i] == t[i]);
        }
        if touched(nodes, edges, x) && !touched(nodes, t, x) {
            let i = choose|i: int|
                0 <= i < edges.len() && (#[trigger] edges[i]).kind != EdgeKind::Contains && has_key(nodes, edges[i].from@)
                    && has_key(nodes, edges[i].to@) && (edges[i].from@ == x || edges[i].to@ == x);
            if i < n {
                assert(t[i] == edges[i]);
            }
        }
    }
}

proof fn lemma_filter_from<T>(s: Seq<T>, p: spec_fn(T) -> bool, y: T)
    requires
        s.filter(p).contains(y),
    ensures
        s.contains(y),
        p(y),
    decreases s.len(),
{
    reveal(Seq::filter);
    let t = s.drop_last();
    assert(s.len() > 0);
    if p(s.last()) {
        let f = t.filter(p).push(s.last());
        assert(s.filter(p) == f);
        let k = choose|k: int| 0 <= k < f.len() && f[k] == y;
        if k < f.len() - 1 {
            assert(t.filter(p)[k] == y);
            lemma_filter_from(t, p, y);
            let m = choose|m: int| 0 <= m < t.len() && t[m] == y;
            assert(s[m] == y);
        } else {
            assert(s[s.len() - 1] == y);
        }
    } else {
        assert(s.filter(p) == t.filter(p));
        lemma_filter_from(t, p, y);
        let m = choose|m: int| 0 <= m < t.len() && t[m] == y;
        assert(s[m] == y);
    }
}

/// Metrics list as orphans exactly the type and entity nodes that no edge
/// other than a containment edge between known nodes touches.
pub proof fn law_orphans_are_untouched_types_and_entities(nodes: Seq<(Seq<char>, Node)>, edges: Seq<Edge>, x: Seq<char>)
    ensures
        orphan_ids(nodes, edges).contains(x) <==> exists|k: int|
            0 <= k < nodes.len() && (#[trigger] nodes[k]).0 == x && (nodes[k].1.kind == NodeKind::Type || nodes[k].1.kind
                == NodeKind::Entity) && !touched(nodes, edges, x),
{
    let p = |e: (Seq<char>, Node)| is_orphan(nodes, edges, e);
    let f = nodes.filter(p);
    let ids = f.map_values(|e: (Seq<char>, Node)| e.0);
    lemma_untouched_degrees(nodes, edges, x);
    if ids.contains(x) {
        let j = choose|j: int| 0 <= j < ids.len() && ids[j] == x;
        assert(f.contains(f[j]));
        lemma_filter_from(nodes, p, f[j]);
        let k = choose|k: int| 0 <= k < nodes.len() && nodes[k] == f[j];
        assert(nodes[k].0 == x);
    }
    if exists|k: int|
        0 <= k < nodes.len() && (#[trigger] nodes[k]).0 == x && (nodes[k].1.kind == NodeKind::Type || nodes[k].1.kind
            == NodeKind::Entity) && !touched(nodes, edges, x) {
        let k = choose|k: int|
            0 <= k < nodes.len() && (#[trigger] nodes[k]).0 == x && (nodes[k].1.kind == NodeKind::Type || nodes[k].1.kind
                == NodeKind::Entity) && !touched(nodes, edges, x);
        assert(p(nodes[k]));
        nodes.lemma_filter_contains(p, k);
        let j = choose|j: int| 0 <= j < f.len() && f[j] == nodes[k];
        assert(ids[j] == x);
    }
}

/// In TypeScript and Java the header of a declaration `X` links `X` to the
/// type named after `extends` by an extends edge, and to each type listed
/// after `implements` by an implements edge; it makes no other update.
pub proof fn law_class_header_links_parents(lang: BraceLanguage, id: Seq<char>, header: Seq<char>)
    requires
        lang == BraceLanguage::Typescript || lang == BraceLanguage::Java,
    ensures
        keyword_name(header, "extends"@) is Some ==> header_ops(lang, id, header).contains(
            OpView::Link(id, "type:"@ + keyword_name(header, "extends"@)->0, EdgeKind::Extends),
        ),
        forall|j: int|
            0 <= j < keyword_names(header, "implements"@).len() ==> header_ops(lang, id, header).contains(
                OpView::Link(id, "type:"@ + #[trigger] keyword_names(header, "implements"@)[j], EdgeKind::Implements),
            ),
        forall|i: int|
            0 <= i < header_ops(lang, id, header).len() ==> match #[trigger] header_ops(lang, id, header)[i] {
                OpView::Link(from, to, kind) => from == id && ((kind == EdgeKind::Extends && keyword_name(header, "extends"@)
                    is Some && to == "type:"@ + keyword_name(header, "extends"@)->0) || (kind == EdgeKind::Implements
                    && exists|j: int|
                    0 <= j < keyword_names(header, "implements"@).len() && to == "type:"@ + #[trigger] keyword_names(
                        header,
                        "implements"@,
                    )[j])),
                _ => false,
            },
{
    let a = keyword_link(id, header, "extends"@, EdgeKind::Extends);
    let names = keyword_names(header, "implements"@);
    let b = links_to(id, names, EdgeKind::Implements);
    let ops = header_ops(lang, id, header);
    assert(ops == a + b);
    if keyword_name(header, "extends"@) is Some {
        assert(a.len() == 1);
        assert(ops[0] == a[0]);
    }
    assert forall|j: int| 0 <= j < names.len() implies ops.contains(
        OpView::Link(id, "type:"@ + #[trigger] names[j], EdgeKind::Implements),
    ) by {
        assert(ops[a.len() + j] == b[j]);
    }
    assert forall|i: int| 0 <= i < ops.len() implies match #[trigger] ops[i] {
        OpView::Link(from, to, kind) => from == id && ((kind == EdgeKind::Extends && keyword_name(header, "extends"@)
            is Some && to == "type:"@ + keyword_name(header, "extends"@)->0) || (kind == EdgeKind::Implements && exists|j: int|
            0 <= j < names.len() && to == "type:"@ + #[trigger] names[j])),
        _ => false,
    } by {
        if i < a.len() {
            assert(ops[i] == a[i]);
        } else {
            assert(ops[i] == b[i - a.len()]);
            assert(names[i - a.len()] == names[i - a.len()]);
        }
    }
}

/// The Mermaid relation line of a drawn edge names the edge's source first,
/// with its sanitized name right after the indentation, and its target last,
/// with its sanitized name right before the edge label and the line break.
pub proof fn law_mermaid_relation_runs_from_source_to_target(nodes: Seq<(Seq<char>, Node)>, e: Edge)
    requires
        e.kind != EdgeKind::Contains,
        is_diagram_id(nodes, e.from@),
        is_diagram_id(nodes, e.to@),
    ensures
        mermaid_edge(nodes, e).len() >= 3 + mermaid_safe(value_of(nodes, e.from@).name@).len() + mermaid_safe(
            value_of(nodes, e.to@).name@,
        ).len() + mermaid_label(e.kind).len(),
        mermaid_edge(nodes, e).take(3 + mermaid_safe(value_of(nodes, e.from@).name@).len() as int) == "  "@ + mermaid_safe(
            value_of(nodes, e.from@).name@,
        ) + seq![' '],
        mermaid_edge(nodes, e).skip(
            mermaid_edge(nodes, e).len() - (mermaid_safe(value_of(nodes, e.to@).name@).len() + mermaid_label(e.kind).len()
                + 1),
        ) == mermaid_safe(value_of(nodes, e.to@).name@) + mermaid_label(e.kind) + seq!['\n'],
{
    let f = "  "@ + mermaid_safe(value_of(nodes, e.from@).name@) + seq![' '];
    let m = mermaid_arrow(e.kind) + seq![' '];
    let t = mermaid_safe(value_of(nodes, e.to@).name@) + mermaid_label(e.kind) + seq!['\n'];
    let line = mermaid_edge(nodes, e);
    reveal_strlit("  ");
    assert(line =~= f + m + t);
    assert(line.take(f.len() as int) =~= f);
    assert(line.skip(line.len() - t.len()) =~= t);
}

/// The centre of the box drawn for `id`: half the box width (168) right of
/// its position, half its height below.
pub open spec fn box_centre(g: Graph, pos: Seq<(Seq<char>, (usize, usize))>, id: Seq<char>) -> (nat, nat) {
    ((value_of(pos, id).0 + 168int / 2) as nat, (value_of(pos, id).1 + node_height_of(g.members@, id) / 2) as nat)
}

/// The SVG path of a drawn edge starts (`M`) at the centre of its source's
/// box and ends (`L`, where the arrowhead is drawn) at the centre of its
/// target's box.
pub proof fn law_svg_edge_runs_from_source_to_target(g: Graph, pos: Seq<(Seq<char>, (usize, usize))>, e: Edge)
    requires
        e.kind != EdgeKind::Contains,
        has_key(pos, e.from@),
        has_key(pos, e.to@),
    ensures
        exists|p: Seq<char>, q: Seq<char>|
            edge_svg(g, pos, e) == p + "d=\"M"@ + decimal(box_centre(g, pos, e.from@).0) + ","@ + decimal(
                box_centre(g, pos, e.from@).1,
            ) + " L"@ + decimal(box_centre(g, pos, e.to@).0) + ","@ + decimal(box_centre(g, pos, e.to@).1) + q
                && (exists|k: int| 0 <= k <= q.len() - 10 && #[trigger] q.subrange(k, k + 10) == "marker-end"@),
{
    let a = box_centre(g, pos, e.from@);
    let b = box_centre(g, pos, e.to@);
    reveal_strlit("<path class=\"apex-edge apex-edge-");
    reveal_strlit("\" d=\"M");
    reveal_strlit("\" ");
    reveal_strlit("d=\"M");
    reveal_strlit(" marker-end=\"url(#");
    reveal_strlit(" ");
    reveal_strlit("marker-end");
    reveal_strlit("=\"url(#");
    let p = "<path class=\"apex-edge apex-edge-"@ + edge_kind_name(e.kind) + "\" "@;
    let mid = "d=\"M"@ + decimal(a.0) + ","@ + decimal(a.1) + " L"@ + decimal(b.0) + ","@ + decimal(b.1);
    let q = edge_tail(e.kind);
    assert("\" d=\"M"@ =~= "\" "@ + "d=\"M"@);
    assert(edge_svg(g, pos, e) =~= p + mid + q);
    let pre = "\" fill=\"none\" stroke=\""@ + edge_color(e.kind) + "\" stroke-width=\"1.6\""@ + edge_dash(e.kind) + " "@;
    assert(" marker-end=\"url(#"@ =~= " "@ + "marker-end"@ + "=\"url(#"@);
    assert(q =~= pre + "marker-end"@ + ("=\"url(#"@ + edge_marker(e.kind) + ")\"/>"@));
    let k = pre.len() as int;
    assert(q.subrange(k, k + 10) =~= "marker-end"@);
    assert(edge_svg(g, pos, e) =~= p + "d=\"M"@ + decimal(a.0) + ","@ + decimal(a.1) + " L"@ + decimal(b.0) + ","@
        + decimal(b.1) + q);
    assert(exists|k: int| 0 <= k <= q.len() - 10 && #[trigger] q.subrange(k, k + 10) == "marker-end"@);
}

} // verus!
