//! Graph updates as values: the effect of recording a node, an edge, a member
//! or a reference to a named type, applied one after another.
use crate::graph::{has_edge, has_member, is_builtin_name, is_builtin_ref, is_builtin_type, members_of, Graph};
use crate::keymap::{has_key, insert_entry, lemma_map_vals, map_vals, value_of};
use crate::model::{clone_opt, opt_view, Edge, EdgeKind, EdgeView, Member, MemberKind, MemberView, Node, NodeKind, NodeView};
use crate::strs::{in_set, trim, trim_set, trim_start_lit, trim_start_str, trim_ws};
use crate::text::{chars_equal, chars_of, push_all, push_str, string_of};
use vstd::prelude::*;

verus! {

broadcast use vstd::string::group_string_axioms;

/// A graph read as plain values: nodes by id, edges in order, member lists by id.
pub struct GraphView {
    pub nodes: Seq<(Seq<char>, NodeView)>,
    pub edges: Seq<EdgeView>,
    pub members: Map<Seq<char>, Seq<MemberView>>,
}

/// The views of a member list.
pub open spec fn member_views(s: Seq<Member>) -> Seq<MemberView> {
    s.map_values(|m: Member| m@)
}

/// The plain-value reading of a graph.
pub open spec fn graph_view(g: Graph) -> GraphView {
    GraphView {
        nodes: map_vals(g.nodes@, |n: Node| n@),
        edges: g.edges@.map_values(|e: Edge| e@),
        members: Map::new(|k: Seq<char>| has_key(g.members@, k), |k: Seq<char>| member_views(value_of(g.members@, k)@)),
    }
}

/// A graph update, read as plain values.
pub enum OpView {
    Upsert(NodeView),
    Link(Seq<char>, Seq<char>, EdgeKind),
    AddMember(Seq<char>, MemberView),
    Reference(Seq<char>, Seq<char>, Seq<char>, EdgeKind, Option<Seq<char>>),
}

/// A graph update.
pub enum GraphOp {
    /// Store a node under its id, replacing any node with that id.
    Upsert(Node),
    /// Record an edge from, to, of a kind.
    Link(String, String, EdgeKind),
    /// Record a member of the node with this id.
    AddMember(String, Member),
    /// Link a source to the type a reference names (source, reference,
    /// path and layer for a newly created target node, edge kind).
    Reference(String, String, String, EdgeKind, Option<String>),
}

impl View for GraphOp {
    type V = OpView;

    open spec fn view(&self) -> OpView {
        match self {
            GraphOp::Upsert(n) => OpView::Upsert(n@),
            GraphOp::Link(a, b, k) => OpView::Link(a@, b@, *k),
            GraphOp::AddMember(id, m) => OpView::AddMember(id@, m@),
            GraphOp::Reference(s, t, p, k, l) => OpView::Reference(s@, t@, p@, *k, opt_view(*l)),
        }
    }
}

/// The views of a list of updates.
pub open spec fn op_views(s: Seq<GraphOp>) -> Seq<OpView> {
    s.map_values(|o: GraphOp| o@)
}

/// Storing a node.
pub open spec fn upsert_v(g: GraphView, n: NodeView) -> GraphView {
    GraphView { nodes: insert_entry(g.nodes, n.id, n), ..g }
}

/// Whether recording this edge adds it: no built-in end, not a loop, not present.
pub open spec fn edge_new_v(edges: Seq<EdgeView>, from: Seq<char>, to: Seq<char>, kind: EdgeKind) -> bool {
    !is_builtin_ref(to) && !is_builtin_ref(from) && from != to && !edges.contains(EdgeView { from, to, kind })
}

/// Recording an edge.
pub open spec fn link_v(g: GraphView, from: Seq<char>, to: Seq<char>, kind: EdgeKind) -> GraphView {
    if edge_new_v(g.edges, from, to, kind) {
        GraphView { edges: g.edges.push(EdgeView { from, to, kind }), ..g }
    } else {
        g
    }
}

/// Whether a member list already has a member with this name and kind.
pub open spec fn has_member_v(list: Seq<MemberView>, name: Seq<char>, kind: MemberKind) -> bool {
    exists|i: int| 0 <= i < list.len() && #[trigger] list[i].name == name && list[i].kind == kind
}

/// Recording a member: ignored when unnamed; a member with the same name and
/// kind is kept once.
pub open spec fn member_v(g: GraphView, id: Seq<char>, m: MemberView) -> GraphView {
    if m.name.len() == 0 {
        g
    } else {
        let list = if g.members.dom().contains(id) {
            g.members[id]
        } else {
            Seq::empty()
        };
        GraphView {
            members: g.members.insert(
                id,
                if has_member_v(list, m.name, m.kind) {
                    list
                } else {
                    list.push(m)
                },
            ),
            ..g
        }
    }
}

/// The characters stripped from both ends of a type reference.
pub open spec fn reference_trim() -> Seq<char> {
    "{}():,;*&[]"@
}

/// The type name a reference denotes: its brackets and punctuation stripped, then white space.
pub open spec fn clean_reference(target: Seq<char>) -> Seq<char> {
    trim(crate::strs::trim_by(target, in_set(reference_trim())))
}

/// Linking a source to a referenced type: nothing for an empty, self or
/// built-in name; otherwise the target type node is created when missing
/// and the edge recorded.
pub open spec fn reference_v(
    g: GraphView,
    source: Seq<char>,
    target: Seq<char>,
    target_path: Seq<char>,
    kind: EdgeKind,
    layer: Option<Seq<char>>,
) -> GraphView {
    let clean = clean_reference(target);
    if clean.len() == 0 || clean == trim_start_lit(source, "type:"@) || is_builtin_name(clean) {
        g
    } else {
        let id = "type:"@ + clean;
        let g1 = if has_key(g.nodes, id) {
            g
        } else {
            upsert_v(g, NodeView { id, name: clean, kind: NodeKind::Type, path: target_path, layer })
        };
        link_v(g1, source, id, kind)
    }
}

/// The effect of one update.
pub open spec fn op_effect(g: GraphView, op: OpView) -> GraphView {
    match op {
        OpView::Upsert(n) => upsert_v(g, n),
        OpView::Link(a, b, k) => link_v(g, a, b, k),
        OpView::AddMember(id, m) => member_v(g, id, m),
        OpView::Reference(s, t, p, k, l) => reference_v(g, s, t, p, k, l),
    }
}

/// The effect of updates applied in order.
pub open spec fn apply_all(g: GraphView, ops: Seq<OpView>) -> GraphView
    decreases ops.len(),
{
    if ops.len() == 0 {
        g
    } else {
        op_effect(apply_all(g, ops.drop_last()), ops.last())
    }
}

proof fn lemma_edges_view_contains(edges: Seq<Edge>, e: EdgeView)
    ensures
        has_edge(edges, e) == edges.map_values(|x: Edge| x@).contains(e),
{
    let v = edges.map_values(|x: Edge| x@);
    if has_edge(edges, e) {
        let i = choose|i: int| 0 <= i < edges.len() && #[trigger] edges[i]@ == e;
        assert(v[i] == e);
    }
    if v.contains(e) {
        let i = choose|i: int| 0 <= i < v.len() && v[i] == e;
        assert(edges[i]@ == e);
    }
}

impl Graph {
    /// Stores a node, reading the effect as plain values.
    pub fn upsert(&mut self, node: Node)
        ensures
            graph_view(*final(self)) == upsert_v(graph_view(*old(self)), node@),
    {
        let ghost n = node;
        self.upsert_node(node);
        proof {
            lemma_map_vals(old(self).nodes@, n.id@, n, |x: Node| x@);
            assert(graph_view(*final(self)).members =~= graph_view(*old(self)).members);
        }
    }

    /// Records an edge, reading the effect as plain values.
    pub fn link(&mut self, from: &str, to: &str, kind: EdgeKind)
        ensures
            graph_view(*final(self)) == link_v(graph_view(*old(self)), from@, to@, kind),
    {
        self.add_edge(from, to, kind);
        proof {
            lemma_edges_view_contains(old(self).edges@, EdgeView { from: from@, to: to@, kind });
            let ov = old(self).edges@.map_values(|x: Edge| x@);
            let nv = final(self).edges@.map_values(|x: Edge| x@);
            if crate::graph::edge_is_new(old(self).edges@, from@, to@, kind) {
                assert(final(self).edges@ =~= old(self).edges@.push(final(self).edges@.last()));
                assert(nv =~= ov.push(EdgeView { from: from@, to: to@, kind }));
            }
            assert(graph_view(*final(self)).members =~= graph_view(*old(self)).members);
        }
    }

    /// Records a member, reading the effect as plain values.
    pub fn record_member(&mut self, node_id: &str, member: Member)
        ensures
            graph_view(*final(self)) == member_v(graph_view(*old(self)), node_id@, member@),
    {
        let ghost m = member;
        let ghost old_list = members_of(old(self).members@, node_id@);
        self.add_member(node_id, member);
        proof {
            let gv0 = graph_view(*old(self));
            let gv1 = graph_view(*final(self));
            if m.name@.len() == 0 {
                assert(gv1.members =~= gv0.members);
            } else {
                let lv = member_views(old_list);
                assert(lv == (if gv0.members.dom().contains(node_id@) {
                    gv0.members[node_id@]
                } else {
                    Seq::empty()
                })) by {
                    if !has_key(old(self).members@, node_id@) {
                        assert(lv =~= Seq::<MemberView>::empty());
                    }
                }
                assert(has_member(old_list, m.name@, m.kind) == has_member_v(lv, m.name@, m.kind)) by {
                    if has_member(old_list, m.name@, m.kind) {
                        let i = choose|i: int| 0 <= i < old_list.len() && #[trigger] old_list[i].name@ == m.name@ && old_list[i].kind == m.kind;
                        assert(lv[i].name == m.name@);
                    }
                    if has_member_v(lv, m.name@, m.kind) {
                        let i = choose|i: int| 0 <= i < lv.len() && #[trigger] lv[i].name == m.name@ && lv[i].kind == m.kind;
                        assert(old_list[i].name@ == m.name@);
                    }
                }
                let newl = members_of(final(self).members@, node_id@);
                assert(member_views(newl) == (if has_member_v(lv, m.name@, m.kind) {
                    lv
                } else {
                    lv.push(m@)
                })) by {
                    if !has_member(old_list, m.name@, m.kind) {
                        assert(member_views(old_list.push(m)) =~= lv.push(m@));
                    }
                }
                assert(gv1.members =~= member_v(gv0, node_id@, m@).members) by {
                    assert forall|k: Seq<char>| #[trigger] gv1.members.dom().contains(k) == member_v(gv0, node_id@, m@).members.dom().contains(k) by {}
                    assert forall|k: Seq<char>| gv1.members.dom().contains(k) implies #[trigger] gv1.members[k] == member_v(gv0, node_id@, m@).members[k] by {
                        if k == node_id@ {
                            assert(has_key(final(self).members@, k));
                        }
                    }
                }
            }
        }
    }
}


proof fn lemma_has_key_views(s: Seq<(Seq<char>, Node)>, k: Seq<char>)
    ensures
        has_key(map_vals(s, |n: Node| n@), k) == has_key(s, k),
{
    let m = map_vals(s, |n: Node| n@);
    if has_key(s, k) {
        let i = choose|i: int| 0 <= i < s.len() && #[trigger] s[i].0 == k;
        assert(m[i].0 == k);
    }
    if has_key(m, k) {
        let i = choose|i: int| 0 <= i < m.len() && #[trigger] m[i].0 == k;
        assert(s[i].0 == k);
    }
}

impl Graph {
    /// Links `source` to the type named by the reference `target`, creating
    /// that type node (with `target_path` and `layer`) when it is missing.
    pub fn add_reference(&mut self, source: &str, target: &str, target_path: &str, kind: EdgeKind, layer: Option<String>)
        ensures
            graph_view(*final(self)) == reference_v(graph_view(*old(self)), source@, target@, target_path@, kind, opt_view(layer)),
    {
        let t = chars_of(target);
        let set = chars_of("{}():,;*&[]");
        let stripped = trim_set(t.as_slice(), set.as_slice());
        let clean = trim_ws(stripped.as_slice());
        let src = chars_of(source);
        let bare = trim_start_str(src.as_slice(), "type:");
        if clean.len() == 0 || chars_equal(clean.as_slice(), bare.as_slice()) || is_builtin_type(clean.as_slice()) {
            return;
        }
        let mut idv: Vec<char> = Vec::new();
        push_str(&mut idv, "type:");
        push_all(&mut idv, clean.as_slice());
        let id = string_of(idv.as_slice());
        assert(id@ == "type:"@ + clean_reference(target@));
        proof {
            lemma_has_key_views(self.nodes@, id@);
        }
        if !self.nodes.contains_key(id.as_str()) {
            let node = Node {
                id: string_of(idv.as_slice()),
                name: string_of(clean.as_slice()),
                kind: NodeKind::Type,
                path: crate::text::owned(target_path),
                layer,
            };
            self.upsert(node);
        }
        self.link(source, id.as_str(), kind);
    }

    /// Applies one update.
    pub fn apply(&mut self, op: &GraphOp)
        ensures
            graph_view(*final(self)) == op_effect(graph_view(*old(self)), op@),
    {
        match op {
            GraphOp::Upsert(n) => {
                self.upsert(n.duplicate());
            },
            GraphOp::Link(a, b, k) => {
                self.link(a.as_str(), b.as_str(), *k);
            },
            GraphOp::AddMember(id, m) => {
                self.record_member(id.as_str(), m.duplicate());
            },
            GraphOp::Reference(src, t, p, k, l) => {
                self.add_reference(src.as_str(), t.as_str(), p.as_str(), *k, clone_opt(l));
            },
        }
    }

    /// Applies updates in order.
    pub fn apply_ops(&mut self, ops: &Vec<GraphOp>)
        ensures
            graph_view(*final(self)) == apply_all(graph_view(*old(self)), op_views(ops@)),
    {
        let ghost start = graph_view(*self);
        let mut i: usize = 0;
        while i < ops.len()
            invariant
                i <= ops@.len(),
                graph_view(*self) == apply_all(start, op_views(ops@.take(i as int))),
            decreases ops.len() - i,
        {
            self.apply(&ops[i]);
            proof {
                let t = op_views(ops@.take(i + 1));
                assert(t.drop_last() =~= op_views(ops@.take(i as int)));
                assert(t.last() == ops@[i as int]@);
            }
            i += 1;
        }
        assert(ops@.take(ops@.len() as int) =~= ops@);
    }
}

} // verus!
