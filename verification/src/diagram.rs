//! Diagram placement: diagram nodes grouped into connected components,
//! each component layered by longest import-free path depth, rows of at most
//! six nodes, components stacked top to bottom.
use crate::graph::Graph;
use crate::keymap::{has_key, insert_entry, key_view, lemma_insert_entry, lemma_key_view_index, sorted_keys, value_of, KeyMap, KeySet};
use crate::metrics::{build_links, diagram_id_list, diagram_ids, linked_edges, starts_component, union_into};
use crate::model::{Edge, EdgeKind, Node};
use crate::rules::{import_closure, lemma_reaches_transitive, reaches};
use crate::text::{lists_view, strs_view};
use vstd::prelude::*;

verus! {

broadcast use vstd::string::group_string_axioms;

/// The ids among `ids` that `s` reaches over `links`, in order.
pub open spec fn component_of(ids: Seq<Seq<char>>, links: Seq<Edge>, s: Seq<char>) -> Seq<Seq<char>> {
    ids.filter(|v: Seq<char>| reaches(links, s, v))
}

/// The components started among the first `n` ids, in order of their first id.
pub open spec fn components_upto(ids: Seq<Seq<char>>, links: Seq<Edge>, n: nat) -> Seq<Seq<Seq<char>>>
    decreases n,
{
    if n == 0 {
        Seq::empty()
    } else {
        let r = components_upto(ids, links, (n - 1) as nat);
        if starts_component(ids, links, n - 1) {
            r.push(component_of(ids, links, ids[n - 1]))
        } else {
            r
        }
    }
}

/// The connected components of the diagram nodes, each in id order, ordered
/// by their first id.
pub open spec fn diagram_components(nodes: Seq<(Seq<char>, Node)>, edges: Seq<Edge>) -> Seq<Seq<Seq<char>>> {
    let ids = diagram_ids(nodes);
    components_upto(ids, linked_edges(nodes, edges), ids.len())
}

fn select_reached(ids: &Vec<String>, reached: &KeySet, Ghost(links): Ghost<Seq<Edge>>, Ghost(s): Ghost<Seq<char>>) -> (r: Vec<String>)
    requires
        forall|k: Seq<char>| has_key(reached@, k) <==> reaches(links, s, k),
    ensures
        strs_view(r@) == component_of(strs_view(ids@), links, s),
{
    let ghost d = strs_view(ids@);
    let ghost pred = |v: Seq<char>| reaches(links, s, v);
    let mut out: Vec<String> = Vec::new();
    let mut i: usize = 0;
    while i < ids.len()
        invariant
            i <= ids@.len(),
            d == strs_view(ids@),
            pred == (|v: Seq<char>| reaches(links, s, v)),
            forall|k: Seq<char>| has_key(reached@, k) <==> reaches(links, s, k),
            strs_view(out@) == d.take(i as int).filter(pred),
        decreases ids.len() - i,
    {
        proof {
            assert(d.take(i + 1) =~= d.take(i as int).push(d[i as int]));
            d.take(i as int).lemma_filter_push(d[i as int], pred);
            assert(d[i as int] == ids@[i as int]@);
        }
        let ghost before = out@;
        if reached.contains_key(ids[i].as_str()) {
            out.push(ids[i].clone());
            assert(strs_view(out@) =~= strs_view(before).push(d[i as int]));
        }
        i += 1;
    }
    assert(d.take(d.len() as int) =~= d);
    out
}

/// The connected components of the diagram nodes.
pub fn diagram_component_lists(graph: &Graph) -> (r: Vec<Vec<String>>)
    ensures
        lists_view(r@) == diagram_components(graph.nodes@, graph.edges@),
{
    let diagram = graph.diagram_node_ids();
    let links = build_links(graph, &diagram);
    let ghost l = links@;
    let linked = Graph { nodes: KeyMap::new(), edges: links, members: KeyMap::new() };
    let ids = diagram_id_list(graph);
    let ghost d = strs_view(ids@);
    let mut covered: KeySet = KeyMap::new();
    let mut out: Vec<Vec<String>> = Vec::new();
    let mut i: usize = 0;
    while i < ids.len()
        invariant
            i <= ids@.len(),
            d == strs_view(ids@),
            l == linked.edges@,
            lists_view(out@) == components_upto(d, l, i as nat),
            sorted_keys(covered@),
            forall|k: Seq<char>|
                has_key(covered@, k) <==> exists|j: int| 0 <= j < i && #[trigger] reaches(l, d[j], k),
        decreases ids.len() - i,
    {
        assert(d[i as int] == ids@[i as int]@);
        if covered.contains_key(ids[i].as_str()) {
            proof {
                let j0 = choose|j: int| 0 <= j < i && #[trigger] reaches(l, d[j], d[i as int]);
                assert(!starts_component(d, l, i as int));
                assert forall|k: Seq<char>|
                    has_key(covered@, k) <==> exists|j: int| 0 <= j < i + 1 && #[trigger] reaches(l, d[j], k) by {
                    if exists|j: int| 0 <= j < i + 1 && #[trigger] reaches(l, d[j], k) {
                        let j1 = choose|j: int| 0 <= j < i + 1 && #[trigger] reaches(l, d[j], k);
                        if j1 == i {
                            lemma_reaches_transitive(l, d[j0], d[i as int], k);
                        }
                    }
                }
            }
        } else {
            proof {
                assert forall|j: int| 0 <= j < i implies !#[trigger] reaches(l, d[j], d[i as int]) by {
                    if reaches(l, d[j], d[i as int]) {
                        assert(has_key(covered@, d[i as int]));
                    }
                }
                assert(starts_component(d, l, i as int));
            }
            let component = import_closure(&linked, ids[i].as_str());
            let members = select_reached(&ids, &component, Ghost(l), Ghost(d[i as int]));
            let ghost before = out@;
            out.push(members);
            assert(lists_view(out@) =~= lists_view(before).push(component_of(d, l, d[i as int])));
            let ghost prev = covered@;
            union_into(&mut covered, &component);
            proof {
                assert forall|k: Seq<char>|
                    has_key(covered@, k) <==> exists|j: int| 0 <= j < i + 1 && #[trigger] reaches(l, d[j], k) by {
                    if exists|j: int| 0 <= j < i + 1 && #[trigger] reaches(l, d[j], k) {
                        let j1 = choose|j: int| 0 <= j < i + 1 && #[trigger] reaches(l, d[j], k);
                        if j1 < i {
                            assert(has_key(prev, k));
                        }
                    }
                    if has_key(prev, k) {
                        let j1 = choose|j: int| 0 <= j < i && #[trigger] reaches(l, d[j], k);
                        assert(0 <= j1 < i + 1 && reaches(l, d[j1], k));
                    }
                    if has_key(component@, k) {
                        assert(reaches(l, d[i as int], k));
                    }
                }
            }
        }
        i += 1;
    }
    out
}


/// One relaxation step: an edge between two ids of component `c` lifts its
/// target's rank to one above its source's.
pub open spec fn relax_edge(e: Edge, c: Seq<Seq<char>>, r: Map<Seq<char>, int>) -> Map<Seq<char>, int> {
    if e.kind != EdgeKind::Contains && c.contains(e.from@) && c.contains(e.to@) && r[e.to@] < r[e.from@] + 1 {
        r.insert(e.to@, r[e.from@] + 1)
    } else {
        r
    }
}

/// One pass of relaxation over the edges in order.
pub open spec fn relax_round(edges: Seq<Edge>, c: Seq<Seq<char>>, r: Map<Seq<char>, int>) -> Map<Seq<char>, int>
    decreases edges.len(),
{
    if edges.len() == 0 {
        r
    } else {
        relax_edge(edges.last(), c, relax_round(edges.drop_last(), c, r))
    }
}

/// The ranks of the ids of `c` after `k` passes, starting from zero.
pub open spec fn ranks_after(edges: Seq<Edge>, c: Seq<Seq<char>>, k: nat) -> Map<Seq<char>, int>
    decreases k,
{
    if k == 0 {
        Map::new(|v: Seq<char>| c.contains(v), |v: Seq<char>| 0int)
    } else {
        relax_round(edges, c, ranks_after(edges, c, (k - 1) as nat))
    }
}

/// The layering rank of each id of component `c`: the longest-path depth
/// found by `c.len() + 4` relaxation passes.
pub open spec fn component_ranks(edges: Seq<Edge>, c: Seq<Seq<char>>) -> Map<Seq<char>, int> {
    ranks_after(edges, c, c.len() + 4)
}

/// A rank table holds exactly the ids of `c`, with the ranks of `r`, each at most `bound`.
pub open spec fn ranks_match(m: Seq<(Seq<char>, u128)>, c: Seq<Seq<char>>, r: Map<Seq<char>, int>, bound: int) -> bool {
    &&& sorted_keys(m)
    &&& forall|k: Seq<char>| #![trigger has_key(m, k)] has_key(m, k) <==> c.contains(k)
    &&& forall|k: Seq<char>| #![trigger has_key(m, k)] has_key(m, k) ==> value_of(m, k) as int == r[k]
    &&& forall|k: Seq<char>| #![trigger r.dom().contains(k)] r.dom().contains(k) <==> c.contains(k)
    &&& forall|k: Seq<char>| #![trigger r[k]] c.contains(k) ==> 0 <= r[k] <= bound
}

/// The largest rank bound the layout works with.
pub open spec fn rank_limit() -> int {
    0x100_0000_0000_0000_0000_0000_0000_0000
}

/// The most nodes a diagram is laid out for: beyond it, coordinates would
/// no longer fit in a machine word.
pub open spec fn node_limit() -> int {
    usize::MAX as int / 1024
}

/// Every coordinate of a diagram lies within this bound.
pub open spec fn coord_limit() -> int {
    512 * node_limit()
}

/// What the layout arithmetic needs of the two limits.
pub proof fn lemma_limits()
    ensures
        4_000_000 <= node_limit() <= 0x40_0000_0000_0000,
        coord_limit() + 100_000 <= usize::MAX,
{
    assert(usize::MAX == 0xffff_ffff || usize::MAX == 0xffff_ffff_ffff_ffff);
}

fn relax_once(edges: &Vec<Edge>, rank: &mut KeyMap<u128>, Ghost(c): Ghost<Seq<Seq<char>>>, Ghost(r0): Ghost<Map<Seq<char>, int>>, Ghost(b0): Ghost<int>) -> (changed: bool)
    requires
        ranks_match(old(rank)@, c, r0, b0),
        0 <= b0,
        b0 + edges@.len() <= rank_limit(),
    ensures
        ranks_match(final(rank)@, c, relax_round(edges@, c, r0), b0 + edges@.len()),
        !changed ==> relax_round(edges@, c, r0) == r0,
{
    let ghost e = edges@;
    let mut changed = false;
    let mut i: usize = 0;
    while i < edges.len()
        invariant
            e == edges@,
            i <= e.len(),
            0 <= b0,
            b0 + e.len() <= rank_limit(),
            ranks_match(rank@, c, relax_round(e.take(i as int), c, r0), b0 + i),
            !changed ==> relax_round(e.take(i as int), c, r0) == r0,
        decreases edges.len() - i,
    {
        let ghost cur = relax_round(e.take(i as int), c, r0);
        proof {
            let t = e.take(i + 1);
            assert(t.drop_last() =~= e.take(i as int));
            assert(t.last() == e[i as int]);
            assert(relax_round(t, c, r0) == relax_edge(e[i as int], c, cur));
        }
        let edge = &edges[i];
        let ghost prev = rank@;
        if edge.kind != EdgeKind::Contains {
            match (rank.get(edge.from.as_str()), rank.get(edge.to.as_str())) {
                (Some(fr), Some(tr)) => {
                    let fr = *fr;
                    let tr = *tr;
                    proof {
                        assert(c.contains(edge.from@) && c.contains(edge.to@));
                        assert(fr as int == cur[edge.from@]);
                        assert(tr as int == cur[edge.to@]);
                        assert(fr <= b0 + i);
                    }
                    if tr < fr + 1 {
                        rank.insert(edge.to.clone(), fr + 1);
                        changed = true;
                        proof {
                            lemma_insert_entry(prev, edge.to@, (fr + 1) as u128);
                            let nxt = cur.insert(edge.to@, cur[edge.from@] + 1);
                            assert forall|k: Seq<char>| #![trigger has_key(rank@, k)] has_key(rank@, k) <==> c.contains(k) by {
                                assert(has_key(rank@, k) <==> (has_key(prev, k) || k == edge.to@));
                            }
                            assert(relax_edge(e[i as int], c, cur) == nxt);
                            assert forall|k: Seq<char>| #![trigger has_key(rank@, k)] has_key(rank@, k) ==> value_of(rank@, k) as int == nxt[k] by {
                                if has_key(rank@, k) && k != edge.to@ {
                                    assert(has_key(prev, k));
                                }
                            }
                            assert forall|k: Seq<char>| #![trigger nxt[k]] c.contains(k) implies 0 <= nxt[k] <= b0 + i + 1 by {
                                if k != edge.to@ {
                                    assert(cur[k] <= b0 + i);
                                }
                            }
                        }
                    } else {
                        proof {
                            assert(relax_edge(e[i as int], c, cur) == cur);
                        }
                    }
                },
                _ => {
                    proof {
                        assert(!(c.contains(edge.from@) && c.contains(edge.to@)));
                        assert(relax_edge(e[i as int], c, cur) == cur);
                    }
                },
            }
        } else {
            assert(relax_edge(e[i as int], c, cur) == cur);
        }
        proof {
            let nxt = relax_edge(e[i as int], c, cur);
            assert(sorted_keys(rank@));
            assert(forall|k: Seq<char>| #![trigger has_key(rank@, k)] has_key(rank@, k) <==> c.contains(k));
            assert(forall|k: Seq<char>| #![trigger has_key(rank@, k)] has_key(rank@, k) ==> value_of(rank@, k) as int == nxt[k]);
            assert(forall|k: Seq<char>| #![trigger nxt.dom().contains(k)] nxt.dom().contains(k) <==> c.contains(k));
            assert(forall|k: Seq<char>| #![trigger nxt[k]] c.contains(k) ==> 0 <= nxt[k] <= b0 + i + 1);
        }
        i += 1;
    }
    assert(e.take(e.len() as int) =~= e);
    changed
}


proof fn lemma_ranks_stable(edges: Seq<Edge>, c: Seq<Seq<char>>, k: nat, j: nat)
    requires
        relax_round(edges, c, ranks_after(edges, c, k)) == ranks_after(edges, c, k),
        k <= j,
    ensures
        ranks_after(edges, c, j) == ranks_after(edges, c, k),
    decreases j - k,
{
    if j > k {
        lemma_ranks_stable(edges, c, k, (j - 1) as nat);
    }
}

/// The rank table of component `c`.
fn component_rank_table(edges: &Vec<Edge>, comp: &Vec<String>) -> (r: KeyMap<u128>)
    requires
        comp@.len() <= node_limit(),
    ensures
        ranks_match(r@, strs_view(comp@), component_ranks(edges@, strs_view(comp@)), rank_limit()),
{
    let ghost c = strs_view(comp@);
    let ghost e = edges@;
    let mut table: KeyMap<u128> = KeyMap::new();
    let mut j: usize = 0;
    while j < comp.len()
        invariant
            j <= comp@.len(),
            c == strs_view(comp@),
            sorted_keys(table@),
            forall|k: Seq<char>| #![trigger has_key(table@, k)] has_key(table@, k) <==> c.take(j as int).contains(k),
            forall|k: Seq<char>| #![trigger has_key(table@, k)] has_key(table@, k) ==> value_of(table@, k) == 0,
        decreases comp.len() - j,
    {
        let ghost prev = table@;
        let key = comp[j].clone();
        assert(key@ == comp@[j as int]@);
        table.insert(key, 0u128);
        proof {
            assert(table@ == insert_entry(prev, comp@[j as int]@, 0u128));
            lemma_insert_entry(prev, comp@[j as int]@, 0u128);
            assert forall|k: Seq<char>| #![trigger has_key(table@, k)] has_key(table@, k) implies value_of(table@, k) == 0 by {
                if k != comp@[j as int]@ {
                    assert(has_key(prev, k));
                }
            }
            assert(c[j as int] == comp@[j as int]@);
            assert forall|k: Seq<char>| #![trigger has_key(table@, k)] has_key(table@, k) <==> c.take(j + 1).contains(k) by {
                assert(c.take(j + 1) =~= c.take(j as int).push(c[j as int]));
                assert(has_key(prev, k) <==> c.take(j as int).contains(k));
                assert(has_key(table@, k) <==> (has_key(prev, k) || k == comp@[j as int]@));
                if k == c[j as int] {
                    assert(c.take(j + 1)[j as int] == k);
                }
                if c.take(j + 1).contains(k) {
                    let w = choose|w: int| 0 <= w < c.take(j + 1).len() && #[trigger] c.take(j + 1)[w] == k;
                    if w < j {
                        assert(c.take(j as int)[w] == k);
                    }
                }
                if c.take(j as int).contains(k) {
                    let w = choose|w: int| 0 <= w < c.take(j as int).len() && #[trigger] c.take(j as int)[w] == k;
                    assert(c.take(j + 1)[w] == k);
                }
            }
        }
        j += 1;
    }
    proof {
        assert(c.take(c.len() as int) =~= c);
        let z = ranks_after(e, c, 0);
        assert forall|k: Seq<char>| #![trigger z.dom().contains(k)] z.dom().contains(k) <==> c.contains(k) by {}
    }
    let max_iter = comp.len() + 4;
    let edge_count = edges.len();
    assert(e.len() == edge_count);
    let ghost cl = comp@.len();
    let mut round: usize = 0;
    let ghost mut b: int = 0;
    let mut stable = false;
    while round < max_iter && !stable
        invariant
            c == strs_view(comp@),
            e == edges@,
            cl == comp@.len(),
            cl <= node_limit(),
            e.len() <= usize::MAX,
            max_iter == cl + 4,
            round <= max_iter,
            b == round * e.len(),
            ranks_match(table@, c, ranks_after(e, c, round as nat), b),
            stable ==> ranks_after(e, c, max_iter as nat) == ranks_after(e, c, round as nat),
        decreases max_iter - round + if stable { 0int } else { 1int },
    {
        proof {
            lemma_limits();
            assert((round + 1) * e.len() <= (cl + 4) * e.len()) by (nonlinear_arith)
                requires round + 1 <= cl + 4;
            assert((cl + 4) * e.len() <= 0x40_0000_0000_0004 * 0xffff_ffff_ffff_ffff) by (nonlinear_arith)
                requires cl + 4 <= 0x40_0000_0000_0004, e.len() <= 0xffff_ffff_ffff_ffff;
            assert(b + e.len() == (round + 1) * e.len()) by (nonlinear_arith)
                requires b == round * e.len();
        }
        let changed = relax_once(edges, &mut table, Ghost(c), Ghost(ranks_after(e, c, round as nat)), Ghost(b));
        if !changed {
            proof {
                lemma_ranks_stable(e, c, round as nat, max_iter as nat);
            }
            stable = true;
        } else {
            proof {
                b = b + e.len();
            }
            round += 1;
        }
    }
    proof {
        assert(ranks_after(e, c, max_iter as nat) == component_ranks(e, c));
        lemma_limits();
        assert(b <= rank_limit()) by (nonlinear_arith)
            requires b == round * e.len(), round <= cl + 4, cl <= 0x40_0000_0000_0000, e.len() <= 0xffff_ffff_ffff_ffff;
    }
    table
}


proof fn lemma_linked_symmetric(nodes: Seq<(Seq<char>, Node)>, edges: Seq<Edge>)
    ensures
        forall|i: int| 0 <= i < linked_edges(nodes, edges).len() ==> (#[trigger] linked_edges(nodes, edges)[i]).kind == EdgeKind::Imports,
        forall|i: int|
            0 <= i < linked_edges(nodes, edges).len() ==> exists|j: int|
                0 <= j < linked_edges(nodes, edges).len() && (#[trigger] linked_edges(nodes, edges)[j]).from@
                    == (#[trigger] linked_edges(nodes, edges)[i]).to@ && linked_edges(nodes, edges)[j].to@
                    == linked_edges(nodes, edges)[i].from@,
    decreases edges.len(),
{
    if edges.len() > 0 {
        let t = edges.drop_last();
        lemma_linked_symmetric(nodes, t);
        let l0 = linked_edges(nodes, t);
        let l = linked_edges(nodes, edges);
        if crate::metrics::component_edge(nodes, edges.last()) {
            let n = l0.len() as int;
            assert forall|i: int| 0 <= i < l.len() implies exists|j: int|
                0 <= j < l.len() && (#[trigger] l[j]).from@ == (#[trigger] l[i]).to@ && l[j].to@ == l[i].from@ by {
                if i < n {
                    assert(l[i] == l0[i]);
                    let j = choose|j: int| 0 <= j < l0.len() && (#[trigger] l0[j]).from@ == (#[trigger] l0[i]).to@ && l0[j].to@ == l0[i].from@;
                    assert(l[j] == l0[j]);
                } else if i == n {
                    assert(l[n + 1].from@ == l[i].to@);
                } else {
                    assert(l[n].from@ == l[i].to@);
                }
            }
            assert forall|i: int| 0 <= i < l.len() implies (#[trigger] l[i]).kind == EdgeKind::Imports by {
                if i < n {
                    assert(l[i] == l0[i]);
                }
            }
        }
    }
}

proof fn lemma_ball_symmetric(nodes: Seq<(Seq<char>, Node)>, edges: Seq<Edge>, a: Seq<char>, b: Seq<char>, k: nat)
    requires
        crate::rules::import_ball(linked_edges(nodes, edges), a, k).contains(b),
    ensures
        crate::rules::import_ball(linked_edges(nodes, edges), b, k).contains(a),
    decreases k,
{
    let l = linked_edges(nodes, edges);
    if k > 0 {
        let prev = crate::rules::import_ball(l, a, (k - 1) as nat);
        if prev.contains(b) {
            lemma_ball_symmetric(nodes, edges, a, b, (k - 1) as nat);
            crate::rules::lemma_import_ball_mono(l, b, (k - 1) as nat, k);
        } else {
            assert(crate::rules::imported_from(l, prev, b));
            let i = choose|i: int|
                0 <= i < l.len() && l[i].kind == EdgeKind::Imports && prev.contains(l[i].from@) && #[trigger] l[i].to@ == b;
            let u = l[i].from@;
            lemma_linked_symmetric(nodes, edges);
            let j = choose|j: int| 0 <= j < l.len() && (#[trigger] l[j]).from@ == (#[trigger] l[i]).to@ && l[j].to@ == l[i].from@;
            assert(l[j].kind == EdgeKind::Imports);
            assert(crate::rules::import_ball(l, b, 0).contains(b));
            assert(crate::rules::imported_from(l, crate::rules::import_ball(l, b, 0), u));
            assert(crate::rules::import_ball(l, b, 1).contains(u));
            lemma_ball_symmetric(nodes, edges, a, u, (k - 1) as nat);
            crate::rules::lemma_import_ball_compose(l, b, u, 1, (k - 1) as nat);
        }
    }
}

/// Connectivity between diagram nodes is symmetric.
pub proof fn lemma_connected_symmetric(nodes: Seq<(Seq<char>, Node)>, edges: Seq<Edge>, a: Seq<char>, b: Seq<char>)
    requires
        reaches(linked_edges(nodes, edges), a, b),
    ensures
        reaches(linked_edges(nodes, edges), b, a),
{
    let l = linked_edges(nodes, edges);
    let k = choose|k: nat| #[trigger] crate::rules::import_ball(l, a, k).contains(b);
    lemma_ball_symmetric(nodes, edges, a, b, k);
    assert(crate::rules::import_ball(l, b, k).contains(a));
}


/// The total number of ids over a list of id lists.
pub open spec fn total_size(cs: Seq<Seq<Seq<char>>>) -> nat
    decreases cs.len(),
{
    if cs.len() == 0 {
        0
    } else {
        total_size(cs.drop_last()) + cs.last().len()
    }
}

/// The ids reached from one of the first `n` ids.
pub open spec fn covered_by(ids: Seq<Seq<char>>, links: Seq<Edge>, n: nat) -> spec_fn(Seq<char>) -> bool {
    |v: Seq<char>| exists|i: int| 0 <= i < n && #[trigger] reaches(links, ids[i], v)
}

proof fn lemma_filter_len_union(s: Seq<Seq<char>>, p: spec_fn(Seq<char>) -> bool, q: spec_fn(Seq<char>) -> bool)
    requires
        forall|i: int| 0 <= i < s.len() ==> !(p(#[trigger] s[i]) && q(s[i])),
    ensures
        s.filter(|x: Seq<char>| p(x) || q(x)).len() == s.filter(p).len() + s.filter(q).len(),
    decreases s.len(),
{
    let pq = |x: Seq<char>| p(x) || q(x);
    if s.len() == 0 {
        reveal(Seq::filter);
    } else {
        let t = s.drop_last();
        assert forall|i: int| 0 <= i < t.len() implies !(p(#[trigger] t[i]) && q(t[i])) by {
            assert(t[i] == s[i]);
        }
        lemma_filter_len_union(t, p, q);
        assert(s =~= t.push(s.last()));
        t.lemma_filter_push(s.last(), p);
        t.lemma_filter_push(s.last(), q);
        t.lemma_filter_push(s.last(), pq);
        assert(!(p(s[s.len() - 1]) && q(s[s.len() - 1])));
    }
}

proof fn lemma_component_sizes(nodes: Seq<(Seq<char>, Node)>, edges: Seq<Edge>, n: nat)
    requires
        n <= diagram_ids(nodes).len(),
    ensures
        total_size(components_upto(diagram_ids(nodes), linked_edges(nodes, edges), n)) == diagram_ids(nodes).filter(
            covered_by(diagram_ids(nodes), linked_edges(nodes, edges), n),
        ).len(),
        components_upto(diagram_ids(nodes), linked_edges(nodes, edges), n).len() <= total_size(
            components_upto(diagram_ids(nodes), linked_edges(nodes, edges), n),
        ),
    decreases n,
{
    let d = diagram_ids(nodes);
    let l = linked_edges(nodes, edges);
    if n == 0 {
        reveal(Seq::filter);
        assert(covered_by(d, l, 0) =~= |v: Seq<char>| false);
        lemma_filter_none(d);
    } else {
        lemma_component_sizes(nodes, edges, (n - 1) as nat);
        let prev = covered_by(d, l, (n - 1) as nat);
        let cur = covered_by(d, l, n);
        let x = d[n - 1];
        let reach = |v: Seq<char>| reaches(l, x, v);
        let r = components_upto(d, l, (n - 1) as nat);
        if starts_component(d, l, n - 1) {
            let c = component_of(d, l, x);
            assert(c == d.filter(reach));
            assert(components_upto(d, l, n) == r.push(c));
            assert(r.push(c).drop_last() =~= r);
            assert(total_size(r.push(c)) == total_size(r) + c.len());
            assert(cur =~= (|v: Seq<char>| prev(v) || reach(v))) by {
                assert forall|v: Seq<char>| #[trigger] cur(v) == (prev(v) || reach(v)) by {
                    if cur(v) {
                        let i = choose|i: int| 0 <= i < n && #[trigger] reaches(l, d[i], v);
                        if i < n - 1 {
                            assert(prev(v));
                        }
                    }
                    if prev(v) {
                        let i = choose|i: int| 0 <= i < n - 1 && #[trigger] reaches(l, d[i], v);
                        assert(0 <= i < n && reaches(l, d[i], v));
                    }
                    if reach(v) {
                        assert(reaches(l, d[n - 1], v));
                    }
                }
            }
            assert forall|i: int| 0 <= i < d.len() implies !(prev(#[trigger] d[i]) && reach(d[i])) by {
                if prev(d[i]) && reach(d[i]) {
                    let j = choose|j: int| 0 <= j < n - 1 && #[trigger] reaches(l, d[j], d[i]);
                    lemma_connected_symmetric(nodes, edges, x, d[i]);
                    lemma_reaches_transitive(l, d[j], d[i], x);
                    assert(!reaches(l, d[j], d[n - 1]));
                }
            }
            lemma_filter_len_union(d, prev, reach);
            crate::rules::lemma_reaches_reflexive(l, x);
            d.lemma_filter_contains(reach, n - 1);
            assert(c.len() >= 1);
        } else {
            assert(components_upto(d, l, n) == r);
            let j0 = choose|j: int| 0 <= j < n - 1 && #[trigger] reaches(l, d[j], d[n - 1]);
            assert(cur =~= prev) by {
                assert forall|v: Seq<char>| #[trigger] cur(v) == prev(v) by {
                    if cur(v) {
                        let i = choose|i: int| 0 <= i < n && #[trigger] reaches(l, d[i], v);
                        if i == n - 1 {
                            lemma_reaches_transitive(l, d[j0], d[n - 1], v);
                        }
                    }
                    if prev(v) {
                        let i = choose|i: int| 0 <= i < n - 1 && #[trigger] reaches(l, d[i], v);
                        assert(0 <= i < n && reaches(l, d[i], v));
                    }
                }
            }
        }
    }
}

proof fn lemma_filter_none(s: Seq<Seq<char>>)
    ensures
        s.filter(|v: Seq<char>| false).len() == 0,
    decreases s.len(),
{
    reveal(Seq::filter);
    if s.len() > 0 {
        lemma_filter_none(s.drop_last());
    }
}


/// Inserts `x` after every id whose rank is not above its own (stable insertion).
pub open spec fn insert_by_rank(s: Seq<Seq<char>>, x: Seq<char>, r: Map<Seq<char>, int>) -> Seq<Seq<char>>
    decreases s.len(),
{
    if s.len() == 0 || !(r[x] < r[s.last()]) {
        s.push(x)
    } else {
        insert_by_rank(s.drop_last(), x, r).push(s.last())
    }
}

/// The ids stably sorted by ascending rank.
pub open spec fn sort_by_rank(s: Seq<Seq<char>>, r: Map<Seq<char>, int>) -> Seq<Seq<char>>
    decreases s.len(),
{
    if s.len() == 0 {
        s
    } else {
        insert_by_rank(sort_by_rank(s.drop_last(), r), s.last(), r)
    }
}

/// Rows of a rank-sorted id list: a new row starts at each change of rank and
/// after every six ids.
pub open spec fn layout_rows(s: Seq<Seq<char>>, r: Map<Seq<char>, int>) -> Seq<Seq<Seq<char>>>
    decreases s.len(),
{
    if s.len() == 0 {
        Seq::empty()
    } else {
        let rs = layout_rows(s.drop_last(), r);
        let x = s.last();
        if rs.len() == 0 || rs.last().len() >= 6 || r[rs.last().last()] != r[x] {
            rs.push(seq![x])
        } else {
            rs.update(rs.len() - 1, rs.last().push(x))
        }
    }
}

/// The rows of one component.
pub open spec fn component_rows(edges: Seq<Edge>, c: Seq<Seq<char>>) -> Seq<Seq<Seq<char>>> {
    let r = component_ranks(edges, c);
    let rows = layout_rows(sort_by_rank(c, r), r);
    if rows.len() == 0 {
        seq![c]
    } else {
        rows
    }
}

proof fn lemma_insert_by_rank_at(s: Seq<Seq<char>>, x: Seq<char>, r: Map<Seq<char>, int>, p: int)
    requires
        0 <= p <= s.len(),
        forall|j: int| p <= j < s.len() ==> r[x] < r[#[trigger] s[j]],
        p == 0 || !(r[x] < r[s[p - 1]]),
    ensures
        insert_by_rank(s, x, r) == s.insert(p, x),
    decreases s.len(),
{
    if s.len() == 0 || !(r[x] < r[s.last()]) {
        if p < s.len() {
            assert(r[x] < r[s[s.len() - 1]]);
        }
        assert(s.push(x) =~= s.insert(p, x));
    } else {
        let t = s.drop_last();
        assert(p < s.len());
        assert forall|j: int| p <= j < t.len() implies r[x] < r[#[trigger] t[j]] by {
            assert(t[j] == s[j]);
        }
        if p > 0 {
            assert(t[p - 1] == s[p - 1]);
        }
        lemma_insert_by_rank_at(t, x, r, p);
        assert(t.insert(p, x).push(s.last()) =~= s.insert(p, x));
    }
}

fn rank_of(table: &KeyMap<u128>, id: &String, Ghost(c): Ghost<Seq<Seq<char>>>, Ghost(r): Ghost<Map<Seq<char>, int>>) -> (v: u128)
    requires
        c.contains(id@),
        forall|k: Seq<char>| #![trigger has_key(table@, k)] has_key(table@, k) <==> c.contains(k),
        forall|k: Seq<char>| #![trigger has_key(table@, k)] has_key(table@, k) ==> value_of(table@, k) as int == r[k],
    ensures
        v as int == r[id@],
{
    assert(has_key(table@, id@));
    match table.get(id.as_str()) {
        Some(v) => *v,
        None => 0,
    }
}

/// The ids of `comp` stably sorted by rank.
fn sort_component(comp: &Vec<String>, table: &KeyMap<u128>, Ghost(r): Ghost<Map<Seq<char>, int>>) -> (out: Vec<String>)
    requires
        forall|k: Seq<char>| #![trigger has_key(table@, k)] has_key(table@, k) <==> strs_view(comp@).contains(k),
        forall|k: Seq<char>| #![trigger has_key(table@, k)] has_key(table@, k) ==> value_of(table@, k) as int == r[k],
    ensures
        strs_view(out@) == sort_by_rank(strs_view(comp@), r),
        out@.len() == comp@.len(),
        forall|j: int| 0 <= j < out@.len() ==> strs_view(comp@).contains(#[trigger] out@[j]@),
{
    let ghost c = strs_view(comp@);
    let mut out: Vec<String> = Vec::new();
    let mut i: usize = 0;
    while i < comp.len()
        invariant
            i <= comp@.len(),
            c == strs_view(comp@),
            forall|k: Seq<char>| #![trigger has_key(table@, k)] has_key(table@, k) <==> c.contains(k),
            forall|k: Seq<char>| #![trigger has_key(table@, k)] has_key(table@, k) ==> value_of(table@, k) as int == r[k],
            strs_view(out@) == sort_by_rank(c.take(i as int), r),
            out@.len() == i,
            forall|j: int| 0 <= j < out@.len() ==> c.contains(#[trigger] out@[j]@),
        decreases comp.len() - i,
    {
        assert(c[i as int] == comp@[i as int]@);
        assert(c.contains(comp@[i as int]@));
        let rx = rank_of(table, &comp[i], Ghost(c), Ghost(r));
        let mut pos = out.len();
        while pos > 0 && rx < rank_of(table, &out[pos - 1], Ghost(c), Ghost(r))
            invariant
                pos <= out@.len(),
                rx as int == r[c[i as int]],
                forall|k: Seq<char>| #![trigger has_key(table@, k)] has_key(table@, k) <==> c.contains(k),
                forall|k: Seq<char>| #![trigger has_key(table@, k)] has_key(table@, k) ==> value_of(table@, k) as int == r[k],
                forall|j: int| 0 <= j < out@.len() ==> c.contains(#[trigger] out@[j]@),
                forall|j: int| pos <= j < out@.len() ==> r[c[i as int]] < r[#[trigger] out@[j]@],
            decreases pos,
        {
            pos -= 1;
        }
        let ghost before = out@;
        proof {
            let sv = strs_view(before);
            assert forall|j: int| pos <= j < sv.len() implies r[c[i as int]] < r[#[trigger] sv[j]] by {
                assert(sv[j] == before[j]@);
            }
            if pos > 0 {
                assert(sv[pos - 1] == before[pos - 1]@);
            }
            lemma_insert_by_rank_at(sv, c[i as int], r, pos as int);
            let t = c.take(i + 1);
            assert(t.drop_last() =~= c.take(i as int));
            assert(t.last() == c[i as int]);
        }
        out.insert(pos, comp[i].clone());
        assert(strs_view(out@) =~= strs_view(before).insert(pos as int, c[i as int]));
        proof {
            assert forall|j: int| 0 <= j < out@.len() implies c.contains(#[trigger] out@[j]@) by {
                if j < pos {
                    assert(out@[j] == before[j]);
                } else if j > pos {
                    assert(out@[j] == before[j - 1]);
                }
            }
        }
        i += 1;
    }
    assert(c.take(comp@.len() as int) =~= c);
    out
}


proof fn lemma_layout_rows_shape(s: Seq<Seq<char>>, r: Map<Seq<char>, int>)
    ensures
        layout_rows(s, r).len() <= s.len(),
        s.len() > 0 ==> layout_rows(s, r).len() > 0 && layout_rows(s, r).last().len() > 0 && layout_rows(s, r).last().last() == s.last(),
    decreases s.len(),
{
    if s.len() > 0 {
        lemma_layout_rows_shape(s.drop_last(), r);
    }
}

/// Splits rank-sorted ids into rows.
fn build_rows(sorted: &Vec<String>, table: &KeyMap<u128>, Ghost(c): Ghost<Seq<Seq<char>>>, Ghost(r): Ghost<Map<Seq<char>, int>>) -> (rows: Vec<Vec<String>>)
    requires
        forall|j: int| 0 <= j < sorted@.len() ==> c.contains(#[trigger] sorted@[j]@),
        forall|k: Seq<char>| #![trigger has_key(table@, k)] has_key(table@, k) <==> c.contains(k),
        forall|k: Seq<char>| #![trigger has_key(table@, k)] has_key(table@, k) ==> value_of(table@, k) as int == r[k],
    ensures
        lists_view(rows@) == layout_rows(strs_view(sorted@), r),
{
    let ghost sv = strs_view(sorted@);
    let mut rows: Vec<Vec<String>> = Vec::new();
    let mut prev_rank: u128 = 0;
    let mut i: usize = 0;
    while i < sorted.len()
        invariant
            i <= sorted@.len(),
            sv == strs_view(sorted@),
            forall|j: int| 0 <= j < sorted@.len() ==> c.contains(#[trigger] sorted@[j]@),
            forall|k: Seq<char>| #![trigger has_key(table@, k)] has_key(table@, k) <==> c.contains(k),
            forall|k: Seq<char>| #![trigger has_key(table@, k)] has_key(table@, k) ==> value_of(table@, k) as int == r[k],
            lists_view(rows@) == layout_rows(sv.take(i as int), r),
            i > 0 ==> prev_rank as int == r[sv[i - 1]],
        decreases sorted.len() - i,
    {
        let ghost before = lists_view(rows@);
        proof {
            assert(sv[i as int] == sorted@[i as int]@);
            let t = sv.take(i + 1);
            assert(t.drop_last() =~= sv.take(i as int));
            assert(t.last() == sv[i as int]);
            lemma_layout_rows_shape(sv.take(i as int), r);
            if i > 0 {
                assert(sv.take(i as int).last() == sv[i - 1]);
            } else {
                assert(before.len() == 0);
            }
        }
        let rx = rank_of(table, &sorted[i], Ghost(c), Ghost(r));
        let n = rows.len();
        let fresh = n == 0 || rows[n - 1].len() >= 6 || prev_rank != rx;
        proof {
            if n > 0 {
                assert(before.last() == strs_view(rows@[n - 1]@));
                assert(before.last().len() == rows@[n - 1]@.len());
            }
        }
        if fresh {
            let mut row: Vec<String> = Vec::new();
            row.push(sorted[i].clone());
            assert(strs_view(row@) =~= seq![sv[i as int]]);
            let ghost before_rows = rows@;
            rows.push(row);
            assert(lists_view(rows@) == lists_view(before_rows).push(strs_view(row@)));
            assert(lists_view(rows@) =~= before.push(seq![sv[i as int]]));
        } else {
            let mut last = rows.pop().unwrap();
            let ghost last_view = strs_view(last@);
            last.push(sorted[i].clone());
            rows.push(last);
            proof {
                assert(last_view == before.last());
                assert(strs_view(last@) =~= before.last().push(sv[i as int]));
                assert(lists_view(rows@) =~= before.update(before.len() - 1, before.last().push(sv[i as int])));
            }
        }
        prev_rank = rx;
        i += 1;
    }
    assert(sv.take(sorted@.len() as int) =~= sv);
    rows
}


/// The length of the longest list.
pub open spec fn max_len(rows: Seq<Seq<Seq<char>>>) -> nat
    decreases rows.len(),
{
    if rows.len() == 0 {
        0
    } else {
        let m = max_len(rows.drop_last());
        if rows.last().len() > m {
            rows.last().len()
        } else {
            m
        }
    }
}

/// The column count of a block of rows: its widest row (one when empty).
pub open spec fn row_cols(rows: Seq<Seq<Seq<char>>>) -> nat {
    if rows.len() == 0 {
        1
    } else {
        max_len(rows)
    }
}

/// The left edge of column `j` in a row of `len` ids, centred in `cols` columns.
pub open spec fn column_x(cols: nat, len: nat, j: int) -> int {
    40 + (if cols >= len {
        cols - len
    } else {
        0
    }) * 200 / 2 + j * 200
}

/// The positions of one row's ids at height `y`.
pub open spec fn row_positions(row: Seq<Seq<char>>, cols: nat, y: int) -> Seq<(Seq<char>, (usize, usize))> {
    Seq::new(row.len(), |j: int| (row[j], (column_x(cols, row.len(), j) as usize, y as usize)))
}

/// The positions of the first `n` rows, the first at height `y0`, rows 130 apart.
pub open spec fn rows_positions(rows: Seq<Seq<Seq<char>>>, cols: nat, y0: int, n: nat) -> Seq<(Seq<char>, (usize, usize))>
    decreases n,
{
    if n == 0 {
        Seq::empty()
    } else {
        rows_positions(rows, cols, y0, (n - 1) as nat) + row_positions(rows[n - 1], cols, y0 + (n - 1) * 130)
    }
}

/// The placements of the first `n` components, stacked from height 40 with a
/// gap of 60 between components, and the height where the next one starts.
pub open spec fn stacked_positions(edges: Seq<Edge>, comps: Seq<Seq<Seq<char>>>, n: nat) -> (Seq<(Seq<char>, (usize, usize))>, int)
    decreases n,
{
    if n == 0 {
        (Seq::empty(), 40)
    } else {
        let (p, y) = stacked_positions(edges, comps, (n - 1) as nat);
        let rows = component_rows(edges, comps[n - 1]);
        (p + rows_positions(rows, row_cols(rows), y, rows.len()), y + rows.len() * 130 + 60)
    }
}

/// The table made by storing each placement in turn.
pub open spec fn map_of(ps: Seq<(Seq<char>, (usize, usize))>) -> Seq<(Seq<char>, (usize, usize))>
    decreases ps.len(),
{
    if ps.len() == 0 {
        Seq::empty()
    } else {
        insert_entry(map_of(ps.drop_last()), ps.last().0, ps.last().1)
    }
}

/// The diagram position of every diagram node.
pub open spec fn diagram_positions(nodes: Seq<(Seq<char>, Node)>, edges: Seq<Edge>) -> Seq<(Seq<char>, (usize, usize))> {
    let comps = diagram_components(nodes, edges);
    map_of(stacked_positions(edges, comps, comps.len()).0)
}

proof fn lemma_layout_rows_width(s: Seq<Seq<char>>, r: Map<Seq<char>, int>)
    ensures
        forall|i: int| 0 <= i < layout_rows(s, r).len() ==> 1 <= (#[trigger] layout_rows(s, r)[i]).len() <= 6,
    decreases s.len(),
{
    if s.len() > 0 {
        lemma_layout_rows_width(s.drop_last(), r);
        let rs = layout_rows(s.drop_last(), r);
        assert forall|i: int| 0 <= i < layout_rows(s, r).len() implies 1 <= (#[trigger] layout_rows(s, r)[i]).len() <= 6 by {
            if i < rs.len() {
                assert(rs[i].len() <= 6);
            }
        }
    }
}

proof fn lemma_max_len(rows: Seq<Seq<Seq<char>>>, w: nat)
    requires
        forall|i: int| 0 <= i < rows.len() ==> (#[trigger] rows[i]).len() <= w,
    ensures
        max_len(rows) <= w,
        forall|i: int| 0 <= i < rows.len() ==> (#[trigger] rows[i]).len() <= max_len(rows),
    decreases rows.len(),
{
    if rows.len() > 0 {
        let t = rows.drop_last();
        assert forall|i: int| 0 <= i < t.len() implies (#[trigger] t[i]).len() <= w by {
            assert(t[i] == rows[i]);
        }
        lemma_max_len(t, w);
        assert forall|i: int| 0 <= i < rows.len() implies (#[trigger] rows[i]).len() <= max_len(rows) by {
            if i < t.len() {
                assert(t[i] == rows[i]);
            }
        }
    }
}

proof fn lemma_component_lens(ids: Seq<Seq<char>>, links: Seq<Edge>, n: nat)
    ensures
        forall|k: int| 0 <= k < components_upto(ids, links, n).len() ==> (#[trigger] components_upto(ids, links, n)[k]).len() <= ids.len(),
    decreases n,
{
    if n > 0 {
        lemma_component_lens(ids, links, (n - 1) as nat);
        let r = components_upto(ids, links, (n - 1) as nat);
        if starts_component(ids, links, n - 1) {
            let c = component_of(ids, links, ids[n - 1]);
            ids.lemma_filter_len(|v: Seq<char>| reaches(links, ids[n - 1], v));
            assert forall|k: int| 0 <= k < r.push(c).len() implies (#[trigger] r.push(c)[k]).len() <= ids.len() by {
                if k < r.len() {
                    assert(r.push(c)[k] == r[k]);
                }
            }
        }
    }
}

proof fn lemma_total_prefix(cs: Seq<Seq<Seq<char>>>, k: int)
    requires
        0 <= k <= cs.len(),
    ensures
        total_size(cs.take(k)) <= total_size(cs),
    decreases cs.len(),
{
    if k < cs.len() {
        assert(cs.drop_last().take(k) =~= cs.take(k));
        lemma_total_prefix(cs.drop_last(), k);
    } else {
        assert(cs.take(k) =~= cs);
    }
}


proof fn lemma_map_of_push(ps: Seq<(Seq<char>, (usize, usize))>, x: (Seq<char>, (usize, usize)))
    ensures
        map_of(ps.push(x)) == insert_entry(map_of(ps), x.0, x.1),
{
    assert(ps.push(x).drop_last() =~= ps);
}

proof fn lemma_map_of_sorted(ps: Seq<(Seq<char>, (usize, usize))>)
    ensures
        sorted_keys(map_of(ps)),
    decreases ps.len(),
{
    if ps.len() > 0 {
        lemma_map_of_sorted(ps.drop_last());
        lemma_insert_entry(map_of(ps.drop_last()), ps.last().0, ps.last().1);
    }
}

/// Every stored position lies within the coordinate bound on both axes.
pub open spec fn positions_bounded(s: Seq<(Seq<char>, (usize, usize))>) -> bool {
    forall|i: int| 0 <= i < s.len() ==> (#[trigger] s[i]).1.0 <= coord_limit() && s[i].1.1 <= coord_limit()
}

proof fn lemma_insert_bounded(s: Seq<(Seq<char>, (usize, usize))>, k: Seq<char>, v: (usize, usize))
    requires
        positions_bounded(s),
        v.0 <= coord_limit(),
        v.1 <= coord_limit(),
    ensures
        positions_bounded(insert_entry(s, k, v)),
{
    let r = crate::keymap::rank(s, k);
    let t = insert_entry(s, k, v);
    crate::keymap::lemma_rank_bounds(s, k);
    if r < s.len() && s[r].0 == k {
        assert forall|i: int| 0 <= i < t.len() implies (#[trigger] t[i]).1.0 <= coord_limit() && t[i].1.1 <= coord_limit() by {
            if i != r {
                assert(t[i] == s[i]);
            }
        }
    } else {
        assert forall|i: int| 0 <= i < t.len() implies (#[trigger] t[i]).1.0 <= coord_limit() && t[i].1.1 <= coord_limit() by {
            if i < r {
                assert(t[i] == s[i]);
            } else if i > r {
                assert(t[i] == s[i - 1]);
            }
        }
    }
}

/// Stores the positions of a block of rows.
fn place_rows(layout: &mut KeyMap<(usize, usize)>, rows: &Vec<Vec<String>>, cols: usize, y0: usize, Ghost(ps0): Ghost<Seq<(Seq<char>, (usize, usize))>>)
    requires
        old(layout)@ == map_of(ps0),
        cols <= node_limit(),
        forall|i: int| 0 <= i < rows@.len() ==> (#[trigger] rows@[i])@.len() <= node_limit(),
        y0 + rows@.len() * 130 <= coord_limit(),
        positions_bounded(old(layout)@),
    ensures
        final(layout)@ == map_of(ps0 + rows_positions(lists_view(rows@), cols as nat, y0 as int, rows@.len() as nat)),
        positions_bounded(final(layout)@),
{
    let ghost rv = lists_view(rows@);
    let mut ri: usize = 0;
    while ri < rows.len()
        invariant
            rv == lists_view(rows@),
            ri <= rows@.len(),
            cols <= node_limit(),
            forall|i: int| 0 <= i < rows@.len() ==> (#[trigger] rows@[i])@.len() <= node_limit(),
            y0 + rows@.len() * 130 <= coord_limit(),
            positions_bounded(layout@),
            layout@ == map_of(ps0 + rows_positions(rv, cols as nat, y0 as int, ri as nat)),
        decreases rows.len() - ri,
    {
        let row = &rows[ri];
        let y = y0 + ri * 130;
        let len = row.len();
        let ghost base = ps0 + rows_positions(rv, cols as nat, y0 as int, ri as nat);
        let ghost rp = row_positions(rv[ri as int], cols as nat, y as int);
        proof {
            assert(rv[ri as int] == strs_view(row@));
            assert(len <= node_limit());
            assert(base + rp.take(0) =~= base);
        }
        let mut j: usize = 0;
        while j < len
            invariant
                rv == lists_view(rows@),
                ri < rows@.len(),
                row == &rows[ri as int],
                len == row@.len(),
                len <= node_limit(),
                cols <= node_limit(),
                y == y0 + ri * 130,
                y <= coord_limit(),
                positions_bounded(layout@),
                rp == row_positions(rv[ri as int], cols as nat, y as int),
                rv[ri as int] == strs_view(row@),
                j <= len,
                layout@ == map_of(base + rp.take(j as int)),
            decreases len - j,
        {
            let offset = if cols >= len {
                cols - len
            } else {
                0
            };
            let x = 40 + offset * 200 / 2 + j * 200;
            let ghost prev = base + rp.take(j as int);
            proof {
                assert(x == column_x(cols as nat, len as nat, j as int));
                assert(rp[j as int] == (row@[j as int]@, (x, y)));
                assert(base + rp.take(j + 1) =~= prev.push(rp[j as int]));
                lemma_map_of_push(prev, rp[j as int]);
                assert(x <= coord_limit()) by (nonlinear_arith)
                    requires x == 40 + offset * 200 / 2 + j * 200, offset <= node_limit(), j < node_limit();
                lemma_insert_bounded(layout@, row@[j as int]@, (x, y));
            }
            layout.insert(row[j].clone(), (x, y));
            j += 1;
        }
        proof {
            assert(rp.take(len as int) =~= rp);
            assert(rows_positions(rv, cols as nat, y0 as int, (ri + 1) as nat) == rows_positions(rv, cols as nat, y0 as int, ri as nat) + rp);
            assert(base + rp =~= ps0 + rows_positions(rv, cols as nat, y0 as int, (ri + 1) as nat));
        }
        ri += 1;
    }
}


fn widest(rows: &Vec<Vec<String>>) -> (r: usize)
    ensures
        r == row_cols(lists_view(rows@)),
{
    let ghost rv = lists_view(rows@);
    if rows.len() == 0 {
        return 1;
    }
    let mut m: usize = 0;
    let mut i: usize = 0;
    while i < rows.len()
        invariant
            rv == lists_view(rows@),
            i <= rows@.len(),
            m == max_len(rv.take(i as int)),
        decreases rows.len() - i,
    {
        proof {
            let t = rv.take(i + 1);
            assert(t.drop_last() =~= rv.take(i as int));
            assert(t.last() == strs_view(rows@[i as int]@));
        }
        if rows[i].len() > m {
            m = rows[i].len();
        }
        i += 1;
    }
    assert(rv.take(rows@.len() as int) =~= rv);
    m
}

/// Places the diagram nodes: components stacked from the top in order of
/// their first id; within a component, rows by rank (at most six per row,
/// centred, 200 apart), rows 130 apart, components 60 apart.
pub fn diagram_layout(graph: &Graph) -> (r: KeyMap<(usize, usize)>)
    requires
        graph.nodes@.len() <= node_limit(),
    ensures
        r@ == diagram_positions(graph.nodes@, graph.edges@),
        positions_bounded(r@),
{
    let comps = diagram_component_lists(graph);
    let ghost cv = lists_view(comps@);
    let ghost e = graph.edges@;
    let ghost d = diagram_ids(graph.nodes@);
    let ghost l = linked_edges(graph.nodes@, graph.edges@);
    proof {
        graph.nodes@.lemma_filter_len(|x: (Seq<char>, Node)| crate::graph::is_diagram_kind(x.1.kind));
        lemma_component_sizes(graph.nodes@, graph.edges@, d.len());
        d.lemma_filter_len(covered_by(d, l, d.len()));
        lemma_component_lens(d, l, d.len());
    }
    let mut layout: KeyMap<(usize, usize)> = KeyMap::new();
    let mut y: usize = 40;
    let mut k: usize = 0;
    while k < comps.len()
        invariant
            cv == lists_view(comps@),
            cv == diagram_components(graph.nodes@, graph.edges@),
            e == graph.edges@,
            d.len() <= node_limit(),
            cv.len() <= total_size(cv),
            total_size(cv) <= d.len(),
            forall|i: int| 0 <= i < cv.len() ==> (#[trigger] cv[i]).len() <= d.len(),
            k <= comps@.len(),
            layout@ == map_of(stacked_positions(e, cv, k as nat).0),
            positions_bounded(layout@),
            y as int == stacked_positions(e, cv, k as nat).1,
            y <= 40 + 130 * total_size(cv.take(k as int)) + 190 * k,
        decreases comps.len() - k,
    {
        let comp = &comps[k];
        let ghost c = cv[k as int];
        proof {
            assert(c == strs_view(comp@));
            assert(comp@.len() <= node_limit());
            lemma_total_prefix(cv, k as int);
            lemma_total_prefix(cv, k + 1);
            let t = cv.take(k + 1);
            assert(t.drop_last() =~= cv.take(k as int));
            assert(t.last() == c);
        }
        let table = component_rank_table(&graph.edges, comp);
        let ghost r = component_ranks(e, c);
        let sorted = sort_component(comp, &table, Ghost(r));
        let mut rows = build_rows(&sorted, &table, Ghost(c), Ghost(r));
        proof {
            lemma_layout_rows_shape(strs_view(sorted@), r);
            lemma_layout_rows_width(strs_view(sorted@), r);
        }
        if rows.len() == 0 {
            let copy = crate::metrics::clone_strings(comp);
            rows.push(copy);
            assert(lists_view(rows@) =~= seq![c]);
        }
        let ghost rv = lists_view(rows@);
        proof {
            assert(rv == component_rows(e, c));
            assert(rv.len() <= c.len() + 1);
            assert forall|i: int| 0 <= i < rows@.len() implies (#[trigger] rows@[i])@.len() <= node_limit() by {
                assert(rv[i] == strs_view(rows@[i]@));
            }
            assert forall|i: int| 0 <= i < rv.len() implies (#[trigger] rv[i]).len() <= node_limit() by {}
            lemma_max_len(rv, node_limit() as nat);
            assert(y + rows@.len() * 130 <= coord_limit()) by (nonlinear_arith)
                requires
                    y <= 40 + 130 * total_size(cv.take(k as int)) + 190 * k,
                    total_size(cv.take(k as int)) + c.len() <= total_size(cv),
                    rows@.len() <= c.len() + 1,
                    k < cv.len(),
                    cv.len() <= total_size(cv),
                    total_size(cv) <= node_limit();
        }
        let cols = widest(&rows);
        let ghost ps0 = stacked_positions(e, cv, k as nat).0;
        let ghost y_before = y;
        place_rows(&mut layout, &rows, cols, y, Ghost(ps0));
        y = y + rows.len() * 130 + 60;
        proof {
            assert(total_size(cv.take(k + 1)) == total_size(cv.take(k as int)) + c.len());
            assert(stacked_positions(e, cv, (k + 1) as nat) == (ps0 + rows_positions(rv, row_cols(rv), y_before as int, rv.len()), y_before + rv.len() * 130 + 60));
        }
        k += 1;
    }
    proof {
        assert(diagram_positions(graph.nodes@, graph.edges@) == map_of(stacked_positions(e, cv, cv.len()).0));
    }
    layout
}

proof fn lemma_filter_all(s: Seq<Seq<char>>, p: spec_fn(Seq<char>) -> bool)
    requires
        forall|i: int| 0 <= i < s.len() ==> p(#[trigger] s[i]),
    ensures
        s.filter(p).len() == s.len(),
    decreases s.len(),
{
    reveal(Seq::filter);
    if s.len() > 0 {
        let t = s.drop_last();
        assert forall|i: int| 0 <= i < t.len() implies p(#[trigger] t[i]) by {
            assert(t[i] == s[i]);
        }
        lemma_filter_all(t, p);
        assert(s =~= t.push(s.last()));
        t.lemma_filter_push(s.last(), p);
        assert(p(s[s.len() - 1]));
    }
}

/// The connected components of a diagram account for every diagram node
/// once: their sizes add up to the number of diagram nodes, and there are
/// no more components than nodes.
pub proof fn law_components_cover_diagram(nodes: Seq<(Seq<char>, Node)>, edges: Seq<Edge>)
    ensures
        total_size(diagram_components(nodes, edges)) == diagram_ids(nodes).len(),
        diagram_components(nodes, edges).len() <= diagram_ids(nodes).len(),
{
    let d = diagram_ids(nodes);
    let l = linked_edges(nodes, edges);
    lemma_component_sizes(nodes, edges, d.len());
    let cov = covered_by(d, l, d.len());
    assert forall|i: int| 0 <= i < d.len() implies cov(#[trigger] d[i]) by {
        crate::rules::lemma_reaches_reflexive(l, d[i]);
        assert(reaches(l, d[i], d[i]));
    }
    lemma_filter_all(d, cov);
}

/// No two placements share a position.
pub open spec fn positions_distinct(ps: Seq<(Seq<char>, (usize, usize))>) -> bool {
    forall|i: int, j: int| 0 <= i < j < ps.len() ==> (#[trigger] ps[i]).1 != (#[trigger] ps[j]).1
}

/// Every placement lies at a height from `lo` to `hi`.
pub open spec fn heights_within(ps: Seq<(Seq<char>, (usize, usize))>, lo: int, hi: int) -> bool {
    forall|i: int| 0 <= i < ps.len() ==> lo <= (#[trigger] ps[i]).1.1 <= hi
}

proof fn lemma_row_distinct(row: Seq<Seq<char>>, cols: nat, y: int)
    requires
        0 <= y <= coord_limit(),
        cols <= node_limit(),
        row.len() <= node_limit(),
    ensures
        positions_distinct(row_positions(row, cols, y)),
        heights_within(row_positions(row, cols, y), y, y),
{
    let ps = row_positions(row, cols, y);
    let len = row.len();
    let off: int = if cols >= len { cols - len } else { 0 };
    assert(0 <= off <= node_limit());
    assert forall|j: int| 0 <= j < len implies 0 <= #[trigger] column_x(cols, len, j) <= coord_limit() && column_x(cols, len, j) == 40 + off * 100 + j * 200 by {
        assert(off * 200 / 2 == off * 100) by (nonlinear_arith)
            requires
                0 <= off,
        ;
        assert(0 <= off * 100 <= 100 * node_limit()) by (nonlinear_arith)
            requires
                0 <= off <= node_limit(),
        ;
        assert(0 <= j * 200 <= 200 * node_limit()) by (nonlinear_arith)
            requires
                0 <= j < node_limit(),
        ;
    }
    assert forall|i: int, j: int| 0 <= i < j < ps.len() implies (#[trigger] ps[i]).1 != (#[trigger] ps[j]).1 by {
        let xi = column_x(cols, len, i);
        let xj = column_x(cols, len, j);
        assert(i * 200 < j * 200) by (nonlinear_arith)
            requires
                i < j,
        ;
        assert(xi != xj);
        assert(ps[i].1.0 as int == xi && ps[j].1.0 as int == xj);
    }
    assert forall|i: int| 0 <= i < ps.len() implies y <= (#[trigger] ps[i]).1.1 <= y by {
        assert(ps[i].1.1 as int == y);
    }
}

proof fn lemma_rows_distinct(rows: Seq<Seq<Seq<char>>>, cols: nat, y0: int, n: nat)
    requires
        n <= rows.len(),
        0 <= y0,
        y0 + n * 130 <= coord_limit(),
        cols <= node_limit(),
        forall|k: int| 0 <= k < rows.len() ==> (#[trigger] rows[k]).len() <= node_limit(),
    ensures
        positions_distinct(rows_positions(rows, cols, y0, n)),
        heights_within(rows_positions(rows, cols, y0, n), y0, y0 + n * 130 - 130),
    decreases n,
{
    if n > 0 {
        let m = (n - 1) as nat;
        lemma_rows_distinct(rows, cols, y0, m);
        let a = rows_positions(rows, cols, y0, m);
        let yr = y0 + m * 130;
        assert(0 <= yr <= coord_limit()) by (nonlinear_arith)
            requires
                yr == y0 + m * 130,
                0 <= y0,
                y0 + (m + 1) * 130 <= coord_limit(),
        ;
        lemma_row_distinct(rows[m as int], cols, yr);
        let b = row_positions(rows[m as int], cols, yr);
        let ps = a + b;
        assert(rows_positions(rows, cols, y0, n) == ps);
        assert(y0 + m * 130 - 130 < yr);
        assert forall|i: int, j: int| 0 <= i < j < ps.len() implies (#[trigger] ps[i]).1 != (#[trigger] ps[j]).1 by {
            if j < a.len() {
                assert(ps[i] == a[i] && ps[j] == a[j]);
            } else if i >= a.len() {
                assert(ps[i] == b[i - a.len()] && ps[j] == b[j - a.len()]);
            } else {
                assert(ps[i] == a[i] && ps[j] == b[j - a.len()]);
                assert(a[i].1.1 <= y0 + m * 130 - 130);
                assert(b[j - a.len()].1.1 == yr);
            }
        }
        assert forall|i: int| 0 <= i < ps.len() implies y0 <= (#[trigger] ps[i]).1.1 <= y0 + n * 130 - 130 by {
            if i < a.len() {
                assert(ps[i] == a[i]);
            } else {
                assert(ps[i] == b[i - a.len()]);
            }
        }
    }
}

proof fn lemma_sort_len(s: Seq<Seq<char>>, r: Map<Seq<char>, int>)
    ensures
        sort_by_rank(s, r).len() == s.len(),
    decreases s.len(),
{
    if s.len() > 0 {
        lemma_sort_len(s.drop_last(), r);
        lemma_insert_by_rank_len(sort_by_rank(s.drop_last(), r), s.last(), r);
    }
}

proof fn lemma_insert_by_rank_len(s: Seq<Seq<char>>, x: Seq<char>, r: Map<Seq<char>, int>)
    ensures
        insert_by_rank(s, x, r).len() == s.len() + 1,
    decreases s.len(),
{
    if s.len() > 0 && r[x] < r[s.last()] {
        lemma_insert_by_rank_len(s.drop_last(), x, r);
    }
}

proof fn lemma_component_rows_shape(edges: Seq<Edge>, c: Seq<Seq<char>>)
    requires
        c.len() <= node_limit(),
    ensures
        component_rows(edges, c).len() <= c.len() + 1,
        forall|k: int| 0 <= k < component_rows(edges, c).len() ==> (#[trigger] component_rows(edges, c)[k]).len() <= node_limit(),
        row_cols(component_rows(edges, c)) <= node_limit(),
{
    let r = component_ranks(edges, c);
    let sorted = sort_by_rank(c, r);
    lemma_sort_len(c, r);
    lemma_layout_rows_shape(sorted, r);
    lemma_layout_rows_width(sorted, r);
    let rows = component_rows(edges, c);
    assert forall|k: int| 0 <= k < rows.len() implies (#[trigger] rows[k]).len() <= node_limit() by {
        if layout_rows(sorted, r).len() == 0 {
            assert(rows[k] == c);
        }
    }
    lemma_max_len(rows, node_limit() as nat);
}

proof fn lemma_stacked_distinct(edges: Seq<Edge>, comps: Seq<Seq<Seq<char>>>, n: nat)
    requires
        n <= comps.len(),
        total_size(comps) <= node_limit(),
        comps.len() <= total_size(comps),
        forall|k: int| 0 <= k < comps.len() ==> (#[trigger] comps[k]).len() <= node_limit(),
    ensures
        positions_distinct(stacked_positions(edges, comps, n).0),
        heights_within(stacked_positions(edges, comps, n).0, 40, stacked_positions(edges, comps, n).1 - 1),
        40 <= stacked_positions(edges, comps, n).1 <= 40 + 130 * total_size(comps.take(n as int)) + 190 * n,
    decreases n,
{
    if n > 0 {
        let m = (n - 1) as nat;
        lemma_stacked_distinct(edges, comps, m);
        let (a, y) = stacked_positions(edges, comps, m);
        let c = comps[m as int];
        let rows = component_rows(edges, c);
        lemma_component_rows_shape(edges, c);
        lemma_total_prefix(comps, m as int);
        lemma_total_prefix(comps, n as int);
        let t = comps.take(n as int);
        assert(t.drop_last() =~= comps.take(m as int));
        assert(t.last() == c);
        assert(total_size(t) == total_size(comps.take(m as int)) + c.len());
        assert(y + rows.len() * 130 <= coord_limit()) by (nonlinear_arith)
            requires
                y <= 40 + 130 * total_size(comps.take(m as int)) + 190 * m,
                total_size(comps.take(m as int)) + c.len() <= total_size(comps),
                rows.len() <= c.len() + 1,
                m < comps.len(),
                comps.len() <= total_size(comps),
                total_size(comps) <= node_limit(),
        ;
        lemma_rows_distinct(rows, row_cols(rows), y, rows.len());
        let b = rows_positions(rows, row_cols(rows), y, rows.len());
        let ps = a + b;
        assert(stacked_positions(edges, comps, n) == (ps, y + rows.len() * 130 + 60));
        assert forall|i: int, j: int| 0 <= i < j < ps.len() implies (#[trigger] ps[i]).1 != (#[trigger] ps[j]).1 by {
            if j < a.len() {
                assert(ps[i] == a[i] && ps[j] == a[j]);
            } else if i >= a.len() {
                assert(ps[i] == b[i - a.len()] && ps[j] == b[j - a.len()]);
            } else {
                assert(ps[i] == a[i] && ps[j] == b[j - a.len()]);
                assert(a[i].1.1 <= y - 1);
                assert(b[j - a.len()].1.1 >= y);
            }
        }
        assert forall|i: int| 0 <= i < ps.len() implies 40 <= (#[trigger] ps[i]).1.1 <= y + rows.len() * 130 + 60 - 1 by {
            if i < a.len() {
                assert(ps[i] == a[i]);
            } else {
                assert(ps[i] == b[i - a.len()]);
            }
        }
        assert(y + rows.len() * 130 + 60 <= 40 + 130 * total_size(t) + 190 * n) by (nonlinear_arith)
            requires
                y <= 40 + 130 * total_size(comps.take(m as int)) + 190 * m,
                total_size(t) == total_size(comps.take(m as int)) + c.len(),
                rows.len() <= c.len() + 1,
                n == m + 1,
        ;
    }
}

/// `p` is the position of some placement of `ps`.
pub open spec fn placed(ps: Seq<(Seq<char>, (usize, usize))>, p: (usize, usize)) -> bool {
    exists|k: int| 0 <= k < ps.len() && (#[trigger] ps[k]).1 == p
}

proof fn lemma_map_of_distinct(ps: Seq<(Seq<char>, (usize, usize))>)
    requires
        positions_distinct(ps),
    ensures
        positions_distinct(map_of(ps)),
        forall|i: int| 0 <= i < map_of(ps).len() ==> placed(ps, #[trigger] map_of(ps)[i].1),
    decreases ps.len(),
{
    if ps.len() > 0 {
        let q = ps.drop_last();
        assert forall|i: int, j: int| 0 <= i < j < q.len() implies (#[trigger] q[i]).1 != (#[trigger] q[j]).1 by {
            assert(q[i] == ps[i] && q[j] == ps[j]);
        }
        lemma_map_of_distinct(q);
        lemma_map_of_sorted(q);
        let m = map_of(q);
        let x = ps.last();
        let t = insert_entry(m, x.0, x.1);
        assert(map_of(ps) == t);
        assert forall|i: int| 0 <= i < m.len() implies (#[trigger] m[i]).1 != x.1 by {
            assert(placed(q, m[i].1));
            let k = choose|k: int| 0 <= k < q.len() && (#[trigger] q[k]).1 == m[i].1;
            assert(q[k] == ps[k]);
            assert(ps[k].1 != ps[ps.len() - 1].1);
        }
        let r = crate::keymap::rank(m, x.0);
        crate::keymap::lemma_rank_bounds(m, x.0);
        if r < m.len() && m[r].0 == x.0 {
            assert(t == m.update(r, (x.0, x.1)));
            assert forall|i: int, j: int| 0 <= i < j < t.len() implies (#[trigger] t[i]).1 != (#[trigger] t[j]).1 by {
                if i != r && j != r {
                    assert(t[i] == m[i] && t[j] == m[j]);
                } else if i == r {
                    assert(t[j] == m[j]);
                } else {
                    assert(t[i] == m[i]);
                }
            }
            assert forall|i: int| 0 <= i < t.len() implies placed(ps, #[trigger] t[i].1) by {
                if i == r {
                    assert(ps[ps.len() - 1].1 == t[i].1);
                } else {
                    assert(t[i] == m[i]);
                    assert(placed(q, m[i].1));
                    let k = choose|k: int| 0 <= k < q.len() && (#[trigger] q[k]).1 == m[i].1;
                    assert(ps[k] == q[k]);
                }
            }
        } else {
            assert(t == m.insert(r, (x.0, x.1)));
            assert forall|i: int, j: int| 0 <= i < j < t.len() implies (#[trigger] t[i]).1 != (#[trigger] t[j]).1 by {
                if j < r {
                    assert(t[i] == m[i] && t[j] == m[j]);
                } else if i > r {
                    assert(t[i] == m[i - 1] && t[j] == m[j - 1]);
                } else if i == r {
                    assert(t[j] == m[j - 1]);
                } else if j == r {
                    assert(t[i] == m[i]);
                } else {
                    assert(t[i] == m[i] && t[j] == m[j - 1]);
                }
            }
            assert forall|i: int| 0 <= i < t.len() implies placed(ps, #[trigger] t[i].1) by {
                if i == r {
                    assert(ps[ps.len() - 1].1 == t[i].1);
                } else {
                    let mi = if i < r { i } else { i - 1 };
                    assert(t[i] == m[mi]);
                    assert(placed(q, m[mi].1));
                    let k = choose|k: int| 0 <= k < q.len() && (#[trigger] q[k]).1 == m[mi].1;
                    assert(ps[k] == q[k]);
                }
            }
        }
    }
}

/// No two diagram nodes share a position: rows place their nodes 200 apart,
/// rows lie 130 apart and components are stacked below one another.
pub proof fn law_diagram_positions_distinct(nodes: Seq<(Seq<char>, Node)>, edges: Seq<Edge>)
    requires
        nodes.len() <= node_limit(),
    ensures
        positions_distinct(diagram_positions(nodes, edges)),
{
    let d = diagram_ids(nodes);
    let l = linked_edges(nodes, edges);
    let comps = diagram_components(nodes, edges);
    nodes.lemma_filter_len(|x: (Seq<char>, Node)| crate::graph::is_diagram_kind(x.1.kind));
    law_components_cover_diagram(nodes, edges);
    lemma_component_lens(d, l, d.len());
    lemma_stacked_distinct(edges, comps, comps.len());
    lemma_map_of_distinct(stacked_positions(edges, comps, comps.len()).0);
}

} // verus!
