//! The in-memory property graph: nodes keyed by id, directed edges without
//! duplicates, and the members recorded for each type node.
use crate::keymap::{has_key, insert_entry, key_view, lemma_insert_entry, sorted_keys, value_of, KeyMap, KeySet};
use crate::model::{Edge, EdgeKind, EdgeView, Member, MemberKind, Node, NodeKind};
use crate::text::{chars_equal, chars_of, eq_lit, has_prefix, owned, seq_lt, starts_with};
use vstd::prelude::*;

verus! {

broadcast use vstd::string::group_string_axioms;

/// Names of primitive and wrapper types that never become graph edges.
pub open spec fn is_builtin_name(s: Seq<char>) -> bool {
    ||| s == "string"@
    ||| s == "str"@
    ||| s == "String"@
    ||| s == "bool"@
    ||| s == "boolean"@
    ||| s == "int"@
    ||| s == "i32"@
    ||| s == "i64"@
    ||| s == "u32"@
    ||| s == "u64"@
    ||| s == "usize"@
    ||| s == "float"@
    ||| s == "float64"@
    ||| s == "double"@
    ||| s == "void"@
    ||| s == "None"@
    ||| s == "Option"@
    ||| s == "Result"@
}

/// Whether `value` names a built-in type.
pub fn is_builtin_type(value: &[char]) -> (r: bool)
    ensures
        r == is_builtin_name(value@),
{
    eq_lit(value, "string") || eq_lit(value, "str") || eq_lit(value, "String") || eq_lit(value, "bool")
        || eq_lit(value, "boolean") || eq_lit(value, "int") || eq_lit(value, "i32") || eq_lit(
        value,
        "i64",
    ) || eq_lit(value, "u32") || eq_lit(value, "u64") || eq_lit(value, "usize") || eq_lit(
        value,
        "float",
    ) || eq_lit(value, "float64") || eq_lit(value, "double") || eq_lit(value, "void") || eq_lit(
        value,
        "None",
    ) || eq_lit(value, "Option") || eq_lit(value, "Result")
}

/// An id of the form `type:<name>` whose name is a built-in type.
pub open spec fn is_builtin_ref(id: Seq<char>) -> bool {
    has_prefix(id, "type:"@) && is_builtin_name(id.skip("type:"@.len() as int))
}

/// Whether some edge in `edges` has exactly this view.
pub open spec fn has_edge(edges: Seq<Edge>, e: EdgeView) -> bool {
    exists|i: int| 0 <= i < edges.len() && #[trigger] edges[i]@ == e
}

/// Whether `add_edge` records a new edge: neither end is a built-in type
/// reference, it is not a self-loop, and no equal edge is present.
pub open spec fn edge_is_new(edges: Seq<Edge>, from: Seq<char>, to: Seq<char>, kind: EdgeKind) -> bool {
    &&& !is_builtin_ref(to)
    &&& !is_builtin_ref(from)
    &&& from != to
    &&& !has_edge(edges, EdgeView { from, to, kind })
}

/// `b` is a neighbour of `a` through some edge, in either direction.
pub open spec fn adjacent(edges: Seq<Edge>, a: Seq<char>, b: Seq<char>) -> bool {
    exists|i: int|
        0 <= i < edges.len() && ((#[trigger] edges[i].from@ == a && edges[i].to@ == b) || (
        edges[i].to@ == a && edges[i].from@ == b))
}

/// `v` is a neighbour of some member of `b`.
pub open spec fn reach_from(b: Set<Seq<char>>, edges: Seq<Edge>, v: Seq<char>) -> bool {
    exists|u: Seq<char>| b.contains(u) && adjacent(edges, u, v)
}

/// `b` together with every neighbour of a member of `b`.
pub open spec fn step(edges: Seq<Edge>, b: Set<Seq<char>>) -> Set<Seq<char>> {
    b.union(Set::new(|v: Seq<char>| reach_from(b, edges, v)))
}

/// Reachability in one hop over a prefix grows by the next edge's two directions.
pub proof fn lemma_reach_step(b: Set<Seq<char>>, s: Seq<Edge>, i: int)
    requires
        0 <= i < s.len(),
    ensures
        forall|k: Seq<char>|
            reach_from(b, s.take(i + 1), k) <==> (reach_from(b, s.take(i), k) || (b.contains(
                s[i].from@,
            ) && k == s[i].to@) || (b.contains(s[i].to@) && k == s[i].from@)),
{
    let a = s.take(i);
    let bb = s.take(i + 1);
    assert(bb[i] == s[i]);
    assert forall|u: Seq<char>, k: Seq<char>|
        adjacent(bb, u, k) <==> (adjacent(a, u, k) || (s[i].from@ == u && s[i].to@ == k) || (
        s[i].to@ == u && s[i].from@ == k)) by {
        if adjacent(bb, u, k) {
            let j = choose|j: int|
                0 <= j < bb.len() && ((#[trigger] bb[j].from@ == u && bb[j].to@ == k) || (
                bb[j].to@ == u && bb[j].from@ == k));
            if j < i {
                assert(a[j] == bb[j]);
            }
        }
        if adjacent(a, u, k) {
            let j = choose|j: int|
                0 <= j < a.len() && ((#[trigger] a[j].from@ == u && a[j].to@ == k) || (a[j].to@
                    == u && a[j].from@ == k));
            assert(a[j] == bb[j]);
        }
    }
    assert forall|k: Seq<char>|
        reach_from(b, bb, k) <==> (reach_from(b, a, k) || (b.contains(s[i].from@) && k
            == s[i].to@) || (b.contains(s[i].to@) && k == s[i].from@)) by {
        if reach_from(b, bb, k) {
            let u = choose|u: Seq<char>| b.contains(u) && adjacent(bb, u, k);
            assert(adjacent(a, u, k) || (s[i].from@ == u && s[i].to@ == k) || (s[i].to@ == u
                && s[i].from@ == k));
        }
        if reach_from(b, a, k) {
            let u = choose|u: Seq<char>| b.contains(u) && adjacent(a, u, k);
            assert(adjacent(bb, u, k));
        }
        if b.contains(s[i].from@) && k == s[i].to@ {
            assert(adjacent(bb, s[i].from@, k));
        }
        if b.contains(s[i].to@) && k == s[i].from@ {
            assert(adjacent(bb, s[i].to@, k));
        }
    }
}

/// The ids within `k` undirected hops of `center`.
pub open spec fn ball(edges: Seq<Edge>, center: Seq<char>, k: nat) -> Set<Seq<char>>
    decreases k,
{
    if k == 0 {
        set![center]
    } else {
        step(edges, ball(edges, center, (k - 1) as nat))
    }
}

/// Once a ball stops growing it stays the same for every larger radius.
pub proof fn lemma_ball_fixpoint(edges: Seq<Edge>, center: Seq<char>, k: nat, j: nat)
    requires
        ball(edges, center, k + 1) == ball(edges, center, k),
        k <= j,
    ensures
        ball(edges, center, j) == ball(edges, center, k),
    decreases j - k,
{
    if j > k {
        lemma_ball_fixpoint(edges, center, k, (j - 1) as nat);
        assert(ball(edges, center, j) == step(edges, ball(edges, center, (j - 1) as nat)));
    }
}

/// The keys present in an entry sequence, as a set.
pub open spec fn key_set<V>(s: Seq<(Seq<char>, V)>) -> Set<Seq<char>> {
    Set::new(|k: Seq<char>| has_key(s, k))
}

/// The member list recorded under `id`, empty when there is none.
pub open spec fn members_of(members: Seq<(Seq<char>, Vec<Member>)>, id: Seq<char>) -> Seq<Member> {
    if has_key(members, id) {
        value_of(members, id)@
    } else {
        Seq::empty()
    }
}

/// Whether a list already holds a member with this name and kind.
pub open spec fn has_member(list: Seq<Member>, name: Seq<char>, kind: MemberKind) -> bool {
    exists|i: int| 0 <= i < list.len() && #[trigger] list[i].name@ == name && list[i].kind == kind
}

/// In-memory property graph used by the parser, rules, layout, UI, and CLI.
pub struct Graph {
    /// Nodes keyed by stable id.
    pub nodes: KeyMap<Node>,
    /// Directed graph edges.
    pub edges: Vec<Edge>,
    /// Members (fields/methods) discovered for each type node, keyed by node id.
    pub members: KeyMap<Vec<Member>>,
}

/// A copy of a member list.
pub fn clone_members(v: &Vec<Member>) -> (r: Vec<Member>)
    ensures
        r@ == v@,
{
    let mut out: Vec<Member> = Vec::new();
    let mut i: usize = 0;
    while i < v.len()
        invariant
            i <= v@.len(),
            out@ == v@.take(i as int),
        decreases v.len() - i,
    {
        out.push(v[i].duplicate());
        i += 1;
        assert(out@ =~= v@.take(i as int));
    }
    assert(v@.take(v@.len() as int) =~= v@);
    out
}

impl Graph {
    /// Creates an empty graph.
    pub fn new() -> (r: Self)
        ensures
            r.nodes@.len() == 0,
            r.edges@.len() == 0,
            r.members@.len() == 0,
    {
        Graph { nodes: KeyMap::new(), edges: Vec::new(), members: KeyMap::new() }
    }

    /// Inserts or replaces a node by id.
    pub fn upsert_node(&mut self, node: Node)
        ensures
            final(self).nodes@ == insert_entry(old(self).nodes@, node.id@, node),
            final(self).edges@ == old(self).edges@,
            final(self).members@ == old(self).members@,
    {
        let key = node.id.clone();
        self.nodes.insert(key, node);
    }

    /// Inserts a directed edge if it is not already present; edges touching a
    /// built-in type and self-loops are ignored.
    pub fn add_edge(&mut self, from: &str, to: &str, kind: EdgeKind)
        ensures
            final(self).nodes@ == old(self).nodes@,
            final(self).members@ == old(self).members@,
            edge_is_new(old(self).edges@, from@, to@, kind) ==> {
                &&& final(self).edges@.len() == old(self).edges@.len() + 1
                &&& final(self).edges@.drop_last() == old(self).edges@
                &&& final(self).edges@.last()@ == (EdgeView { from: from@, to: to@, kind })
            },
            !edge_is_new(old(self).edges@, from@, to@, kind) ==> final(self).edges@ == old(
                self,
            ).edges@,
    {
        let f = chars_of(from);
        let t = chars_of(to);
        let prefix = chars_of("type:");
        if starts_with(t.as_slice(), prefix.as_slice()) {
            let name = slice_from(t.as_slice(), prefix.len());
            if is_builtin_type(name.as_slice()) {
                return;
            }
        }
        if starts_with(f.as_slice(), prefix.as_slice()) {
            let name = slice_from(f.as_slice(), prefix.len());
            if is_builtin_type(name.as_slice()) {
                return;
            }
        }
        if chars_equal(f.as_slice(), t.as_slice()) {
            return;
        }
        if self.contains_edge(f.as_slice(), t.as_slice(), kind) {
            return;
        }
        let edge = Edge { from: owned(from), to: owned(to), kind };
        self.edges.push(edge);
        assert(self.edges@.drop_last() =~= old(self).edges@);
    }

    /// Whether an edge with these endpoints and kind is present.
    pub fn contains_edge(&self, from: &[char], to: &[char], kind: EdgeKind) -> (r: bool)
        ensures
            r == has_edge(self.edges@, EdgeView { from: from@, to: to@, kind }),
    {
        let mut i: usize = 0;
        while i < self.edges.len()
            invariant
                i <= self.edges@.len(),
                forall|j: int| 0 <= j < i ==> #[trigger] self.edges@[j]@ != (EdgeView { from: from@, to: to@, kind }),
            decreases self.edges.len() - i,
        {
            let e = &self.edges[i];
            if e.kind == kind {
                let ef = chars_of(e.from.as_str());
                let et = chars_of(e.to.as_str());
                if chars_equal(ef.as_slice(), from) && chars_equal(et.as_slice(), to) {
                    assert(self.edges@[i as int]@ == (EdgeView { from: from@, to: to@, kind }));
                    return true;
                }
            }
            i += 1;
        }
        false
    }

    /// Returns all direct neighbours of a node, regardless of edge direction.
    pub fn neighbours(&self, node_id: &str) -> (r: KeySet)
        ensures
            sorted_keys(r@),
            forall|k: Seq<char>| has_key(r@, k) <==> adjacent(self.edges@, node_id@, k),
    {
        let id = chars_of(node_id);
        let mut out: KeySet = KeyMap::new();
        let mut i: usize = 0;
        while i < self.edges.len()
            invariant
                i <= self.edges@.len(),
                id@ == node_id@,
                sorted_keys(out@),
                forall|k: Seq<char>|
                    has_key(out@, k) <==> adjacent(self.edges@.take(i as int), node_id@, k),
            decreases self.edges.len() - i,
        {
            let ghost prev = out@;
            let e = &self.edges[i];
            let ef = chars_of(e.from.as_str());
            let et = chars_of(e.to.as_str());
            let c1 = chars_equal(ef.as_slice(), id.as_slice());
            if c1 {
                out.insert(e.to.clone(), ());
            }
            let ghost mid = out@;
            proof {
                if c1 {
                    lemma_insert_entry(prev, e.to@, ());
                }
            }
            let c2 = chars_equal(et.as_slice(), id.as_slice());
            if c2 {
                out.insert(e.from.clone(), ());
            }
            proof {
                if c2 {
                    lemma_insert_entry(mid, e.from@, ());
                }
                assert(forall|k: Seq<char>| has_key(out@, k) <==> (has_key(prev, k) || (c1 && k == e.to@) || (c2 && k == e.from@)));
                let s = self.edges@;
                let a = s.take(i as int);
                let b = s.take(i + 1);
                assert(b[i as int] == s[i as int]);
                assert(c1 == (s[i as int].from@ == node_id@));
                assert(c2 == (s[i as int].to@ == node_id@));
                assert forall|k: Seq<char>| adjacent(b, node_id@, k) <==> (adjacent(a, node_id@, k) || (c1 && k == s[i as int].to@) || (c2 && k == s[i as int].from@)) by {
                    if adjacent(b, node_id@, k) {
                        let j = choose|j: int|
                            0 <= j < b.len() && ((#[trigger] b[j].from@ == node_id@ && b[j].to@ == k) || (
                            b[j].to@ == node_id@ && b[j].from@ == k));
                        if j < i {
                            assert(a[j] == b[j]);
                        }
                    }
                    if adjacent(a, node_id@, k) {
                        let j = choose|j: int|
                            0 <= j < a.len() && ((#[trigger] a[j].from@ == node_id@ && a[j].to@ == k) || (
                            a[j].to@ == node_id@ && a[j].from@ == k));
                        assert(a[j] == b[j]);
                    }
                }
                assert forall|k: Seq<char>| has_key(out@, k) <==> adjacent(b, node_id@, k) by {
                    assert(has_key(prev, k) <==> adjacent(a, node_id@, k));
                }
            }
            i += 1;
        }
        assert(self.edges@.take(self.edges@.len() as int) =~= self.edges@);
        out
    }
}

/// The characters of `s` from position `start` on.
pub fn slice_from(s: &[char], start: usize) -> (r: Vec<char>)
    requires
        start <= s@.len(),
    ensures
        r@ == s@.skip(start as int),
{
    let mut out: Vec<char> = Vec::new();
    let mut i = start;
    while i < s.len()
        invariant
            start <= i <= s@.len(),
            out@ == s@.subrange(start as int, i as int),
        decreases s.len() - i,
    {
        out.push(s[i]);
        i += 1;
        assert(out@ =~= s@.subrange(start as int, i as int));
    }
    assert(out@ =~= s@.skip(start as int));
    out
}

impl Graph {
    /// One round of neighbourhood growth: `seen` plus every neighbour of a
    /// member of `seen`; `changed` tells whether anything was added.
    fn expand_once(&self, seen: &KeySet) -> (r: (KeySet, bool))
        ensures
            sorted_keys(r.0@),
            key_set(r.0@) == step(self.edges@, key_set(seen@)),
            !r.1 ==> key_set(r.0@) == key_set(seen@),
    {
        let ghost b = key_set(seen@);
        let ghost s = self.edges@;
        let mut next = seen.key_set_copy();
        let mut changed = false;
        let mut i: usize = 0;
        while i < self.edges.len()
            invariant
                i <= s.len(),
                s == self.edges@,
                b == key_set(seen@),
                sorted_keys(next@),
                forall|k: Seq<char>|
                    #![trigger has_key(next@, k)]
                    has_key(next@, k) <==> (b.contains(k) || reach_from(b, s.take(i as int), k)),
                !changed ==> forall|k: Seq<char>|
                    #![trigger has_key(next@, k)]
                    has_key(next@, k) <==> b.contains(k),
            decreases self.edges.len() - i,
        {
            let ghost prev = next@;
            let ghost prev_changed = changed;
            let e = &self.edges[i];
            let ef = chars_of(e.from.as_str());
            let et = chars_of(e.to.as_str());
            let c1 = seen.contains_chars(ef.as_slice());
            let ghost had_to = has_key(prev, e.to@);
            if c1 {
                if !next.contains_chars(et.as_slice()) {
                    changed = true;
                }
                next.insert(e.to.clone(), ());
            }
            let ghost mid = next@;
            proof {
                if c1 {
                    lemma_insert_entry(prev, e.to@, ());
                }
                assert(forall|k: Seq<char>| has_key(mid, k) <==> (has_key(prev, k) || (c1 && k == e.to@)));
            }
            let c2 = seen.contains_chars(et.as_slice());
            let ghost mid_changed = changed;
            if c2 {
                if !next.contains_chars(ef.as_slice()) {
                    changed = true;
                }
                next.insert(e.from.clone(), ());
            }
            proof {
                if c2 {
                    lemma_insert_entry(mid, e.from@, ());
                }
                assert(forall|k: Seq<char>| has_key(next@, k) <==> (has_key(mid, k) || (c2 && k == e.from@)));
                lemma_reach_step(b, s, i as int);
                assert(c1 == b.contains(s[i as int].from@));
                assert(c2 == b.contains(s[i as int].to@));
                assert forall|k: Seq<char>|
                    #![trigger has_key(next@, k)]
                    has_key(next@, k) <==> (b.contains(k) || reach_from(b, s.take(i + 1), k)) by {
                    assert(has_key(prev, k) <==> (b.contains(k) || reach_from(b, s.take(i as int), k)));
                }
                if !changed {
                    assert(!prev_changed);
                    assert forall|k: Seq<char>|
                        #![trigger has_key(next@, k)]
                        has_key(next@, k) <==> b.contains(k) by {
                        assert(has_key(prev, k) <==> b.contains(k));
                        if c1 {
                            assert(has_key(prev, e.to@));
                        }
                        if c2 {
                            assert(has_key(mid, e.from@));
                        }
                    }
                }
            }
            i += 1;
        }
        proof {
            assert(s.take(s.len() as int) =~= s);
            assert forall|k: Seq<char>| key_set(next@).contains(k) == step(s, b).contains(k) by {
                assert(has_key(next@, k) <==> (b.contains(k) || reach_from(b, s, k)));
            }
            assert(key_set(next@) =~= step(self.edges@, b));
            if !changed {
                assert(key_set(next@) =~= b);
            }
        }
        (next, changed)
    }

    /// Returns the N-hop focus subgraph around a selected node: the nodes,
    /// edges and member lists whose ids lie within `hops` undirected hops.
    pub fn focus(&self, node_id: &str, hops: usize) -> (r: Self)
        ensures
            r.nodes@ == self.nodes@.filter(
                |e: (Seq<char>, Node)| ball(self.edges@, node_id@, hops as nat).contains(e.0),
            ),
            r.edges@ == self.edges@.filter(
                |e: Edge|
                    ball(self.edges@, node_id@, hops as nat).contains(e.from@) && ball(
                        self.edges@,
                        node_id@,
                        hops as nat,
                    ).contains(e.to@),
            ),
            forall|k: Seq<char>|
                has_key(r.members@, k) <==> (has_key(self.members@, k) && ball(
                    self.edges@,
                    node_id@,
                    hops as nat,
                ).contains(k)),
            forall|k: Seq<char>|
                has_key(r.members@, k) ==> value_of(r.members@, k)@ == value_of(self.members@, k)@,
    {
        let mut seen: KeySet = KeyMap::new();
        let ghost empty = seen@;
        seen.insert(owned(node_id), ());
        proof {
            lemma_insert_entry(empty, node_id@, ());
            assert forall|k: Seq<char>| key_set(seen@).contains(k) == ball(self.edges@, node_id@, 0).contains(k) by {
                assert(has_key(seen@, k) <==> (has_key(empty, k) || k == node_id@));
            }
            assert(key_set(seen@) =~= ball(self.edges@, node_id@, 0));
        }
        let mut depth: usize = 0;
        let mut done = false;
        while depth < hops && !done
            invariant
                depth <= hops,
                sorted_keys(seen@),
                done ==> key_set(seen@) == ball(self.edges@, node_id@, hops as nat),
                !done ==> key_set(seen@) == ball(self.edges@, node_id@, depth as nat),
            decreases (hops - depth) * 2 + if done { 0int } else { 1int },
        {
            let (next, changed) = self.expand_once(&seen);
            if !changed {
                proof {
                    assert(ball(self.edges@, node_id@, depth as nat + 1) == step(self.edges@, ball(self.edges@, node_id@, depth as nat)));
                    lemma_ball_fixpoint(self.edges@, node_id@, depth as nat, hops as nat);
                }
                done = true;
            } else {
                seen = next;
                depth += 1;
            }
        }
        let ghost bl = ball(self.edges@, node_id@, hops as nat);
        assert(key_set(seen@) == bl);
        let nodes = self.filter_nodes(&seen);
        let edges = self.filter_edges(&seen);
        let members = self.filter_members(&seen);
        Graph { nodes, edges, members }
    }

    fn filter_nodes(&self, seen: &KeySet) -> (r: KeyMap<Node>)
        ensures
            r@ == self.nodes@.filter(|e: (Seq<char>, Node)| key_set(seen@).contains(e.0)),
    {
        let ghost pred = |e: (Seq<char>, Node)| key_set(seen@).contains(e.0);
        let es = self.nodes.entries();
        let ghost s = self.nodes@;
        let mut out: KeyMap<Node> = KeyMap::new();
        let mut i: usize = 0;
        while i < es.len()
            invariant
                key_view(es@) == s,
                s == self.nodes@,
                pred == (|e: (Seq<char>, Node)| key_set(seen@).contains(e.0)),
                sorted_keys(s),
                i <= es@.len(),
                out@ == s.take(i as int).filter(pred),
                out@.len() > 0 ==> exists|m: int| 0 <= m < i && out@.last() == s[m],
            decreases es.len() - i,
        {
            proof {
                crate::keymap::lemma_key_view_index(es@, i as int);
                assert(s.take(i + 1) =~= s.take(i as int).push(s[i as int]));
                s.take(i as int).lemma_filter_push(s[i as int], pred);
            }
            let key = chars_of(es[i].0.as_str());
            if seen.contains_chars(key.as_slice()) {
                proof {
                    if out@.len() > 0 {
                        let m = choose|m: int| 0 <= m < i && out@.last() == s[m];
                        assert(seq_lt(s[m].0, s[i as int].0));
                    }
                }
                out.push_last(es[i].0.clone(), es[i].1.duplicate());
            }
            i += 1;
        }
        assert(s.take(es@.len() as int) =~= s);
        out
    }

    fn filter_edges(&self, seen: &KeySet) -> (r: Vec<Edge>)
        ensures
            r@ == self.edges@.filter(
                |e: Edge| key_set(seen@).contains(e.from@) && key_set(seen@).contains(e.to@),
            ),
    {
        let ghost pred = |e: Edge| key_set(seen@).contains(e.from@) && key_set(seen@).contains(e.to@);
        let ghost s = self.edges@;
        let mut out: Vec<Edge> = Vec::new();
        let mut i: usize = 0;
        while i < self.edges.len()
            invariant
                s == self.edges@,
                pred == (|e: Edge| key_set(seen@).contains(e.from@) && key_set(seen@).contains(e.to@)),
                i <= s.len(),
                out@ == s.take(i as int).filter(pred),
            decreases self.edges.len() - i,
        {
            let e = &self.edges[i];
            let ef = chars_of(e.from.as_str());
            let et = chars_of(e.to.as_str());
            proof {
                assert(s.take(i + 1) =~= s.take(i as int).push(s[i as int]));
                s.take(i as int).lemma_filter_push(s[i as int], pred);
            }
            let ghost prev = out@;
            let keep = seen.contains_chars(ef.as_slice()) && seen.contains_chars(et.as_slice());
            assert(ef@ == s[i as int].from@);
            assert(et@ == s[i as int].to@);
            assert(key_set(seen@).contains(ef@) == has_key(seen@, ef@));
            assert(keep == (key_set(seen@).contains(ef@) && key_set(seen@).contains(et@)));

            if keep {
                out.push(e.duplicate());
            }
            assert(out@ == s.take(i + 1).filter(pred));
            i += 1;
        }
        assert(s.take(s.len() as int) =~= s);
        out
    }

    fn filter_members(&self, seen: &KeySet) -> (r: KeyMap<Vec<Member>>)
        ensures
            forall|k: Seq<char>|
                has_key(r@, k) <==> (has_key(self.members@, k) && key_set(seen@).contains(k)),
            forall|k: Seq<char>| has_key(r@, k) ==> value_of(r@, k)@ == value_of(self.members@, k)@,
    {
        let es = self.members.entries();
        let ghost s = self.members@;
        let mut out: KeyMap<Vec<Member>> = KeyMap::new();
        let mut i: usize = 0;
        while i < es.len()
            invariant
                key_view(es@) == s,
                s == self.members@,
                sorted_keys(s),
                sorted_keys(out@),
                i <= es@.len(),
                forall|k: Seq<char>|
                    has_key(out@, k) <==> (has_key(s.take(i as int), k) && key_set(seen@).contains(k)),
                forall|k: Seq<char>| has_key(out@, k) ==> value_of(out@, k)@ == value_of(s, k)@,
            decreases es.len() - i,
        {
            let ghost prev = out@;
            proof {
                crate::keymap::lemma_key_view_index(es@, i as int);
                crate::keymap::lemma_has_key_take(s, i as int);
            }
            let key = chars_of(es[i].0.as_str());
            let present = seen.contains_chars(key.as_slice());
            assert(key@ == s[i as int].0);
            assert(present == key_set(seen@).contains(s[i as int].0));
            if present {
                let list = clone_members(&es[i].1);
                out.insert(es[i].0.clone(), list);
                proof {
                    lemma_insert_entry(prev, s[i as int].0, list);
                    assert(has_key(s, s[i as int].0));
                    crate::keymap::lemma_has_key_at_rank(s, s[i as int].0);
                    crate::keymap::lemma_rank_bounds(s, s[i as int].0);
                    crate::keymap::lemma_unique_key(s, i as int, crate::keymap::rank(s, s[i as int].0));
                    assert(value_of(s, s[i as int].0) == es@[i as int].1);
                }
            }
            proof {
                assert forall|k: Seq<char>|
                    has_key(out@, k) <==> (has_key(s.take(i + 1), k) && key_set(seen@).contains(k)) by {
                    if present {
                        assert(has_key(out@, k) <==> (has_key(prev, k) || k == s[i as int].0));
                    }
                }
                assert forall|k: Seq<char>| has_key(out@, k) implies value_of(out@, k)@ == value_of(s, k)@ by {
                    if present && k != s[i as int].0 {
                        assert(has_key(prev, k));
                    }
                }
            }
            i += 1;
        }
        assert(s.take(es@.len() as int) =~= s);
        out
    }

    /// Records a member discovered for a type node, deduplicating by name and
    /// kind; members with an empty name are ignored. The first recorded member
    /// creates the node's (possibly empty) list.
    pub fn add_member(&mut self, node_id: &str, member: Member)
        ensures
            final(self).nodes@ == old(self).nodes@,
            final(self).edges@ == old(self).edges@,
            member.name@.len() == 0 ==> final(self).members@ == old(self).members@,
            member.name@.len() > 0 ==> {
                &&& forall|k: Seq<char>|
                    has_key(final(self).members@, k) <==> (has_key(old(self).members@, k) || k
                        == node_id@)
                &&& members_of(final(self).members@, node_id@) == if has_member(
                    members_of(old(self).members@, node_id@),
                    member.name@,
                    member.kind,
                ) {
                    members_of(old(self).members@, node_id@)
                } else {
                    members_of(old(self).members@, node_id@).push(member)
                }
                &&& forall|k: Seq<char>|
                    k != node_id@ && has_key(old(self).members@, k) ==> value_of(
                        final(self).members@,
                        k,
                    ) == value_of(old(self).members@, k)
            },
    {
        if member.name.as_str().is_empty() {
            return;
        }
        let ghost old_members = self.members@;
        let ghost old_list = members_of(old_members, node_id@);
        let mut list: Vec<Member> = match self.members.get(node_id) {
            Some(v) => clone_members(v),
            None => Vec::new(),
        };
        assert(list@ == old_list);
        let name = chars_of(member.name.as_str());
        let mut found = false;
        let mut i: usize = 0;
        while i < list.len()
            invariant
                i <= list@.len(),
                name@ == member.name@,
                found == exists|j: int| 0 <= j < i && #[trigger] list@[j].name@ == name@ && list@[j].kind == member.kind,
            decreases list.len() - i,
        {
            if list[i].kind == member.kind {
                let n = chars_of(list[i].name.as_str());
                if chars_equal(n.as_slice(), name.as_slice()) {
                    found = true;
                }
            }
            i += 1;
        }
        if !found {
            list.push(member);
        }
        let ghost new_list = list;
        self.members.insert(owned(node_id), list);
        proof {
            lemma_insert_entry(old_members, node_id@, new_list);
        }
    }

    /// The ids of type and entity nodes, the nodes a diagram draws.
    pub fn diagram_node_ids(&self) -> (r: KeySet)
        ensures
            sorted_keys(r@),
            forall|k: Seq<char>|
                has_key(r@, k) <==> (has_key(self.nodes@, k) && is_diagram_kind(
                    value_of(self.nodes@, k).kind,
                )),
    {
        let es = self.nodes.entries();
        let ghost s = self.nodes@;
        let mut out: KeySet = KeyMap::new();
        let mut i: usize = 0;
        while i < es.len()
            invariant
                key_view(es@) == s,
                s == self.nodes@,
                sorted_keys(s),
                sorted_keys(out@),
                i <= es@.len(),
                forall|k: Seq<char>|
                    has_key(out@, k) <==> (has_key(s.take(i as int), k) && is_diagram_kind(
                        value_of(s, k).kind,
                    )),
            decreases es.len() - i,
        {
            let ghost prev = out@;
            proof {
                crate::keymap::lemma_key_view_index(es@, i as int);
                crate::keymap::lemma_has_key_take(s, i as int);
                assert(has_key(s, s[i as int].0));
                crate::keymap::lemma_has_key_at_rank(s, s[i as int].0);
                crate::keymap::lemma_rank_bounds(s, s[i as int].0);
                crate::keymap::lemma_unique_key(s, i as int, crate::keymap::rank(s, s[i as int].0));
            }
            let keep = es[i].1.kind == NodeKind::Type || es[i].1.kind == NodeKind::Entity;
            assert(value_of(s, s[i as int].0) == s[i as int].1);
            assert(keep == is_diagram_kind(value_of(s, s[i as int].0).kind));
            if keep {
                out.insert(es[i].0.clone(), ());
                proof {
                    lemma_insert_entry(prev, s[i as int].0, ());
                }
            }
            proof {
                assert forall|k: Seq<char>|
                    has_key(out@, k) <==> (has_key(s.take(i + 1), k) && is_diagram_kind(
                        value_of(s, k).kind,
                    )) by {
                    if keep {
                        assert(has_key(out@, k) <==> (has_key(prev, k) || k == s[i as int].0));
                    }
                    assert(has_key(prev, k) <==> (has_key(s.take(i as int), k) && is_diagram_kind(value_of(s, k).kind)));
                    if k != s[i as int].0 {
                        assert(has_key(s.take(i + 1), k) == has_key(s.take(i as int), k));
                    }
                }
            }
            i += 1;
        }
        assert(s.take(es@.len() as int) =~= s);
        out
    }
}

/// Creates an empty Apex property graph.
pub fn empty_graph() -> (r: Graph)
    ensures
        r.nodes@.len() == 0,
        r.edges@.len() == 0,
        r.members@.len() == 0,
{
    Graph::new()
}

/// Node kinds drawn in diagrams.
pub open spec fn is_diagram_kind(k: NodeKind) -> bool {
    k == NodeKind::Type || k == NodeKind::Entity
}

} // verus!
