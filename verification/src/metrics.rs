//! Architecture metrics derived from a graph: fan-in and fan-out, layer mix,
//! edges between layers, orphans, connected components, import cycles and
//! hotspots, plus their JSON rendering.
use crate::graph::{is_diagram_kind, key_set, Graph};
use crate::keymap::{has_key, insert_entry, key_view, lemma_map_vals, lemma_remove_entry, map_vals, lemma_has_key_at_rank, lemma_insert_entry, lemma_key_view_index, lemma_rank_bounds, lemma_unique_key, rank, sorted_keys, value_of, KeyMap, KeySet};
use crate::model::{opt_view, Edge, EdgeKind, Node, NodeKind};
use crate::render::is_diagram_id;
use crate::rules::{import_closure, lemma_reaches_reflexive, lemma_reaches_transitive, reaches};
use crate::text::{chars_of, compare_chars, owned, seq_lt, str_equal, strs_view};
use vstd::prelude::*;

verus! {

broadcast use vstd::string::group_string_axioms;

/// Per-node metric record.
#[derive(Clone, Debug, PartialEq, Eq, PartialOrd, Ord)]
pub struct NodeMetric {
    /// Node id.
    pub id: String,
    /// Display name.
    pub name: String,
    /// Fan-in count (incoming edges).
    pub fan_in: usize,
    /// Fan-out count (outgoing edges).
    pub fan_out: usize,
}

/// A node metric read as plain values.
pub struct NodeMetricView {
    pub id: Seq<char>,
    pub name: Seq<char>,
    pub fan_in: nat,
    pub fan_out: nat,
}

impl View for NodeMetric {
    type V = NodeMetricView;

    open spec fn view(&self) -> NodeMetricView {
        NodeMetricView { id: self.id@, name: self.name@, fan_in: self.fan_in as nat, fan_out: self.fan_out as nat }
    }
}

/// Metrics derived from a [`Graph`].
pub struct GraphMetrics {
    /// Total number of nodes.
    pub node_count: usize,
    /// Total number of edges.
    pub edge_count: usize,
    /// Number of weakly-connected components within the diagram subgraph.
    pub component_count: usize,
    /// Detected import cycles, each as the participating node ids.
    pub cycles: Vec<Vec<String>>,
    /// Top hotspot nodes by combined fan-in + fan-out.
    pub hotspots: Vec<NodeMetric>,
    /// Fan-in count keyed by node id.
    pub fan_in: KeyMap<usize>,
    /// Fan-out count keyed by node id.
    pub fan_out: KeyMap<usize>,
    /// Number of nodes per detected architectural layer.
    pub layer_mix: KeyMap<usize>,
    /// Disconnected type nodes (no diagram edges).
    pub orphans: Vec<String>,
    /// Edge count between layer pairs, keyed by source layer then target layer.
    pub layer_edges: KeyMap<KeyMap<usize>>,
}

/// An edge that metrics count: not a containment edge, both ends known nodes.
pub open spec fn relevant(nodes: Seq<(Seq<char>, Node)>, e: Edge) -> bool {
    e.kind != EdgeKind::Contains && has_key(nodes, e.from@) && has_key(nodes, e.to@)
}

/// The end of `e` that a degree count looks at: its target for fan-in, its
/// source for fan-out.
pub open spec fn endpoint(e: Edge, incoming: bool) -> Seq<char> {
    if incoming {
        e.to@
    } else {
        e.from@
    }
}

/// The number of relevant edges entering `id` (`incoming`) or leaving it.
pub open spec fn degree(nodes: Seq<(Seq<char>, Node)>, edges: Seq<Edge>, id: Seq<char>, incoming: bool) -> nat
    decreases edges.len(),
{
    if edges.len() == 0 {
        0
    } else {
        degree(nodes, edges.drop_last(), id, incoming) + if relevant(nodes, edges.last()) && endpoint(
            edges.last(),
            incoming,
        ) == id {
            1nat
        } else {
            0nat
        }
    }
}

/// The layer of the node stored under `id`.
pub open spec fn layer_of(nodes: Seq<(Seq<char>, Node)>, id: Seq<char>) -> Option<Seq<char>> {
    opt_view(value_of(nodes, id).layer)
}

/// The number of relevant edges from a node in layer `a` to a node in layer `b`.
pub open spec fn layer_pair_count(nodes: Seq<(Seq<char>, Node)>, edges: Seq<Edge>, a: Seq<char>, b: Seq<char>) -> nat
    decreases edges.len(),
{
    if edges.len() == 0 {
        0
    } else {
        layer_pair_count(nodes, edges.drop_last(), a, b) + if relevant(nodes, edges.last()) && layer_of(
            nodes,
            edges.last().from@,
        ) == Some(a) && layer_of(nodes, edges.last().to@) == Some(b) {
            1nat
        } else {
            0nat
        }
    }
}

/// The number of nodes in layer `l`.
pub open spec fn layer_size(nodes: Seq<(Seq<char>, Node)>, l: Seq<char>) -> nat
    decreases nodes.len(),
{
    if nodes.len() == 0 {
        0
    } else {
        layer_size(nodes.drop_last(), l) + if opt_view(nodes.last().1.layer) == Some(l) {
            1nat
        } else {
            0nat
        }
    }
}

/// A count map holds exactly the positive counts given by `f`.
pub open spec fn counts_match(m: Seq<(Seq<char>, usize)>, f: spec_fn(Seq<char>) -> nat) -> bool {
    &&& sorted_keys(m)
    &&& forall|k: Seq<char>| #![trigger has_key(m, k)] has_key(m, k) <==> f(k) > 0
    &&& forall|k: Seq<char>| #![trigger has_key(m, k)] has_key(m, k) ==> value_of(m, k) == f(k)
}

/// Adds one to the count stored under `key` (absent counts are zero).
fn bump(map: &mut KeyMap<usize>, key: &String, bound: usize)
    requires
        forall|k: Seq<char>| has_key(old(map)@, k) ==> value_of(old(map)@, k) < bound,
    ensures
        sorted_keys(final(map)@),
        forall|k: Seq<char>| has_key(final(map)@, k) <==> (has_key(old(map)@, k) || k == key@),
        value_of(final(map)@, key@) == (if has_key(old(map)@, key@) {
            value_of(old(map)@, key@)
        } else {
            0
        }) + 1,
        forall|k: Seq<char>|
            k != key@ && has_key(old(map)@, k) ==> value_of(final(map)@, k) == value_of(old(map)@, k),
{
    let current: usize = match map.get(key.as_str()) {
        Some(v) => *v,
        None => 0,
    };
    let ghost before = map@;
    map.insert(key.clone(), current + 1);
    proof {
        lemma_insert_entry(before, key@, (current + 1) as usize);
    }
}


proof fn lemma_degree_step(nodes: Seq<(Seq<char>, Node)>, edges: Seq<Edge>, i: int, incoming: bool)
    requires
        0 <= i < edges.len(),
    ensures
        forall|k: Seq<char>|
            #[trigger] degree(nodes, edges.take(i + 1), k, incoming) == degree(nodes, edges.take(i), k, incoming)
                + if relevant(nodes, edges[i]) && endpoint(edges[i], incoming) == k {
                1nat
            } else {
                0nat
            },
{
    let t = edges.take(i + 1);
    assert(t.drop_last() =~= edges.take(i));
    assert(t.last() == edges[i]);
}

proof fn lemma_degree_bound(nodes: Seq<(Seq<char>, Node)>, edges: Seq<Edge>, k: Seq<char>, incoming: bool)
    ensures
        degree(nodes, edges, k, incoming) <= edges.len(),
    decreases edges.len(),
{
    if edges.len() > 0 {
        lemma_degree_bound(nodes, edges.drop_last(), k, incoming);
    }
}

proof fn lemma_degree_known(nodes: Seq<(Seq<char>, Node)>, edges: Seq<Edge>, k: Seq<char>, incoming: bool)
    requires
        degree(nodes, edges, k, incoming) > 0,
    ensures
        has_key(nodes, k),
    decreases edges.len(),
{
    if edges.len() > 0 {
        if degree(nodes, edges.drop_last(), k, incoming) > 0 {
            lemma_degree_known(nodes, edges.drop_last(), k, incoming);
        }
    }
}

/// Whether `e` is a relevant edge, evaluated on the graph.
pub(crate) fn is_relevant(graph: &Graph, e: &Edge) -> (r: bool)
    ensures
        r == relevant(graph.nodes@, *e),
{
    e.kind != EdgeKind::Contains && graph.nodes.contains_key(e.from.as_str()) && graph.nodes.contains_key(
        e.to.as_str(),
    )
}

/// Fan-in (`incoming`) or fan-out counts of every node that has any.
fn degree_map(graph: &Graph, incoming: bool) -> (r: KeyMap<usize>)
    ensures
        counts_match(r@, |k: Seq<char>| degree(graph.nodes@, graph.edges@, k, incoming)),
{
    let ghost nodes = graph.nodes@;
    let ghost edges = graph.edges@;
    let mut map: KeyMap<usize> = KeyMap::new();
    let mut i: usize = 0;
    while i < graph.edges.len()
        invariant
            i <= edges.len(),
            nodes == graph.nodes@,
            edges == graph.edges@,
            counts_match(map@, |k: Seq<char>| degree(nodes, edges.take(i as int), k, incoming)),
        decreases graph.edges.len() - i,
    {
        let e = &graph.edges[i];
        let ghost prev = map@;
        proof {
            lemma_degree_step(nodes, edges, i as int, incoming);
            assert forall|k: Seq<char>| has_key(prev, k) implies value_of(prev, k) < edges.len() by {
                lemma_degree_bound(nodes, edges.take(i as int), k, incoming);
            }
        }
        if is_relevant(graph, e) {
            let key = if incoming {
                &e.to
            } else {
                &e.from
            };
            bump(&mut map, key, graph.edges.len());
            proof {
                assert forall|k: Seq<char>| #![trigger has_key(map@, k)]
                    has_key(map@, k) <==> degree(nodes, edges.take(i + 1), k, incoming) > 0 by {
                    assert(degree(nodes, edges.take(i + 1), k, incoming) == degree(nodes, edges.take(i as int), k, incoming) + if k == key@ { 1nat } else { 0nat });
                }
                assert forall|k: Seq<char>| #![trigger has_key(map@, k)]
                    has_key(map@, k) ==> value_of(map@, k) == degree(nodes, edges.take(i + 1), k, incoming) by {
                    assert(degree(nodes, edges.take(i + 1), k, incoming) == degree(nodes, edges.take(i as int), k, incoming) + if k == key@ { 1nat } else { 0nat });
                }
            }
        } else {
            proof {
                assert forall|k: Seq<char>| #[trigger] degree(nodes, edges.take(i + 1), k, incoming) == degree(nodes, edges.take(i as int), k, incoming) by {
                }
            }
        }
        i += 1;
    }
    assert(edges.take(edges.len() as int) =~= edges);
    map
}


proof fn lemma_layer_size_step(nodes: Seq<(Seq<char>, Node)>, i: int)
    requires
        0 <= i < nodes.len(),
    ensures
        forall|l: Seq<char>|
            #[trigger] layer_size(nodes.take(i + 1), l) == layer_size(nodes.take(i), l) + if opt_view(
                nodes[i].1.layer,
            ) == Some(l) {
                1nat
            } else {
                0nat
            },
{
    let t = nodes.take(i + 1);
    assert(t.drop_last() =~= nodes.take(i));
    assert(t.last() == nodes[i]);
}

proof fn lemma_layer_size_bound(nodes: Seq<(Seq<char>, Node)>, l: Seq<char>)
    ensures
        layer_size(nodes, l) <= nodes.len(),
    decreases nodes.len(),
{
    if nodes.len() > 0 {
        lemma_layer_size_bound(nodes.drop_last(), l);
    }
}

/// The number of nodes in each layer that has any.
fn layer_mix_map(graph: &Graph) -> (r: KeyMap<usize>)
    ensures
        counts_match(r@, |l: Seq<char>| layer_size(graph.nodes@, l)),
{
    let es = graph.nodes.entries();
    let ghost nodes = graph.nodes@;
    let mut map: KeyMap<usize> = KeyMap::new();
    let mut i: usize = 0;
    while i < es.len()
        invariant
            i <= nodes.len(),
            key_view(es@) == nodes,
            counts_match(map@, |l: Seq<char>| layer_size(nodes.take(i as int), l)),
        decreases es.len() - i,
    {
        let ghost prev = map@;
        proof {
            lemma_key_view_index(es@, i as int);
            lemma_layer_size_step(nodes, i as int);
            assert forall|k: Seq<char>| has_key(prev, k) implies value_of(prev, k) < nodes.len() by {
                lemma_layer_size_bound(nodes.take(i as int), k);
            }
        }
        match &es[i].1.layer {
            Some(l) => {
                bump(&mut map, l, es.len());
                proof {
                    assert(opt_view(nodes[i as int].1.layer) == Some(l@));
                    assert forall|k: Seq<char>| #![trigger has_key(map@, k)]
                        has_key(map@, k) <==> layer_size(nodes.take(i + 1), k) > 0 by {
                        assert(layer_size(nodes.take(i + 1), k) == layer_size(nodes.take(i as int), k) + if k == l@ { 1nat } else { 0nat });
                    }
                    assert forall|k: Seq<char>| #![trigger has_key(map@, k)]
                        has_key(map@, k) ==> value_of(map@, k) == layer_size(nodes.take(i + 1), k) by {
                        assert(layer_size(nodes.take(i + 1), k) == layer_size(nodes.take(i as int), k) + if k == l@ { 1nat } else { 0nat });
                    }
                }
            },
            None => {
                proof {
                    assert(opt_view(nodes[i as int].1.layer) == None::<Seq<char>>);
                    assert forall|k: Seq<char>| #[trigger] layer_size(nodes.take(i + 1), k) == layer_size(nodes.take(i as int), k) by {
                    }
                }
            },
        }
        i += 1;
    }
    assert(nodes.take(nodes.len() as int) =~= nodes);
    map
}

/// A map of count maps holds exactly the positive counts `f(a, b)`: an outer
/// entry for each `a` with some positive count, holding the counts over `b`.
pub open spec fn pair_counts_match(m: Seq<(Seq<char>, KeyMap<usize>)>, f: spec_fn(Seq<char>, Seq<char>) -> nat) -> bool {
    &&& sorted_keys(m)
    &&& forall|a: Seq<char>| #![trigger has_key(m, a)]
        has_key(m, a) ==> counts_match(value_of(m, a)@, |b: Seq<char>| f(a, b)) && value_of(m, a)@.len() > 0
    &&& forall|a: Seq<char>, b: Seq<char>| !has_key(m, a) ==> #[trigger] f(a, b) == 0
}

/// Adds one to the count stored under `a` then `b`.
fn bump_pair(map: &mut KeyMap<KeyMap<usize>>, a: &String, b: &String, bound: usize)
    requires
        forall|k: Seq<char>, j: Seq<char>|
            has_key(old(map)@, k) && has_key(value_of(old(map)@, k)@, j) ==> value_of(value_of(old(map)@, k)@, j) < bound,
    ensures
        sorted_keys(final(map)@),
        forall|k: Seq<char>| has_key(final(map)@, k) <==> (has_key(old(map)@, k) || k == a@),
        forall|k: Seq<char>| k != a@ && has_key(old(map)@, k) ==> value_of(final(map)@, k) == value_of(old(map)@, k),
        sorted_keys(value_of(final(map)@, a@)@),
        forall|j: Seq<char>|
            has_key(value_of(final(map)@, a@)@, j) <==> ((has_key(old(map)@, a@) && has_key(value_of(old(map)@, a@)@, j)) || j == b@),
        forall|j: Seq<char>|
            #[trigger] has_key(value_of(final(map)@, a@)@, j) ==> value_of(value_of(final(map)@, a@)@, j) == (if has_key(old(map)@, a@) && has_key(value_of(old(map)@, a@)@, j) {
                value_of(value_of(old(map)@, a@)@, j) as int
            } else {
                0
            }) + if j == b@ { 1int } else { 0int },
{
    let ghost had = has_key(map@, a@);
    let mut inner = match map.get(a.as_str()) {
        Some(m) => m.copied(),
        None => KeyMap::new(),
    };
    let ghost before_inner = inner@;
    bump(&mut inner, b, bound);
    let ghost after_inner = inner;
    let ghost before = map@;
    map.insert(a.clone(), inner);
    proof {
        lemma_insert_entry(before, a@, after_inner);
    }
}


proof fn lemma_layer_pair_step(nodes: Seq<(Seq<char>, Node)>, edges: Seq<Edge>, i: int)
    requires
        0 <= i < edges.len(),
    ensures
        forall|a: Seq<char>, b: Seq<char>|
            #[trigger] layer_pair_count(nodes, edges.take(i + 1), a, b) == layer_pair_count(nodes, edges.take(i), a, b)
                + if relevant(nodes, edges[i]) && layer_of(nodes, edges[i].from@) == Some(a) && layer_of(
                nodes,
                edges[i].to@,
            ) == Some(b) {
                1nat
            } else {
                0nat
            },
{
    let t = edges.take(i + 1);
    assert(t.drop_last() =~= edges.take(i));
    assert(t.last() == edges[i]);
}

proof fn lemma_layer_pair_bound(nodes: Seq<(Seq<char>, Node)>, edges: Seq<Edge>, a: Seq<char>, b: Seq<char>)
    ensures
        layer_pair_count(nodes, edges, a, b) <= edges.len(),
    decreases edges.len(),
{
    if edges.len() > 0 {
        lemma_layer_pair_bound(nodes, edges.drop_last(), a, b);
    }
}

/// The number of relevant edges between each pair of layers that has any.
fn layer_edge_map(graph: &Graph) -> (r: KeyMap<KeyMap<usize>>)
    ensures
        pair_counts_match(r@, |a: Seq<char>, b: Seq<char>| layer_pair_count(graph.nodes@, graph.edges@, a, b)),
{
    let ghost nodes = graph.nodes@;
    let ghost edges = graph.edges@;
    let mut map: KeyMap<KeyMap<usize>> = KeyMap::new();
    let mut i: usize = 0;
    while i < graph.edges.len()
        invariant
            i <= edges.len(),
            nodes == graph.nodes@,
            edges == graph.edges@,
            pair_counts_match(map@, |a: Seq<char>, b: Seq<char>| layer_pair_count(nodes, edges.take(i as int), a, b)),
        decreases graph.edges.len() - i,
    {
        let e = &graph.edges[i];
        let ghost prev = map@;
        let ghost f = |a: Seq<char>, b: Seq<char>| layer_pair_count(nodes, edges.take(i as int), a, b);
        let ghost g = |a: Seq<char>, b: Seq<char>| layer_pair_count(nodes, edges.take(i + 1), a, b);
        proof {
            lemma_layer_pair_step(nodes, edges, i as int);
            assert forall|k: Seq<char>, j: Seq<char>|
                has_key(prev, k) && has_key(value_of(prev, k)@, j) implies value_of(value_of(prev, k)@, j) < edges.len() by {
                lemma_layer_pair_bound(nodes, edges.take(i as int), k, j);
                assert(counts_match(value_of(prev, k)@, |b: Seq<char>| f(k, b)));
            }
        }
        let mut done = false;
        if is_relevant(graph, e) {
            let from_node = graph.nodes.get(e.from.as_str());
            let to_node = graph.nodes.get(e.to.as_str());
            match (from_node, to_node) {
                (Some(fnode), Some(tnode)) => {
                    match (&fnode.layer, &tnode.layer) {
                        (Some(fl), Some(tl)) => {
                            bump_pair(&mut map, fl, tl, graph.edges.len());
                            done = true;
                            proof {
                                assert(layer_of(nodes, e.from@) == Some(fl@));
                                assert(layer_of(nodes, e.to@) == Some(tl@));
                                assert forall|a: Seq<char>, b: Seq<char>| #[trigger] g(a, b) == f(a, b) + if a == fl@ && b == tl@ { 1nat } else { 0nat } by {
                                    assert(layer_pair_count(nodes, edges.take(i + 1), a, b) == layer_pair_count(nodes, edges.take(i as int), a, b) + if a == fl@ && b == tl@ { 1nat } else { 0nat });
                                }
                                assert forall|a: Seq<char>| #![trigger has_key(map@, a)]
                                    has_key(map@, a) implies counts_match(value_of(map@, a)@, |b: Seq<char>| g(a, b)) && value_of(map@, a)@.len() > 0 by {
                                    if a == fl@ {
                                        let inner = value_of(map@, a)@;
                                        if has_key(prev, a) {
                                            assert(counts_match(value_of(prev, a)@, |b: Seq<char>| f(a, b)));
                                        }
                                        assert forall|j: Seq<char>| #![trigger has_key(inner, j)] has_key(inner, j) <==> g(a, j) > 0 by {
                                            if has_key(prev, a) {
                                                assert(has_key(value_of(prev, a)@, j) <==> f(a, j) > 0);
                                            } else {
                                                assert(f(a, j) == 0);
                                            }
                                        }
                                        assert forall|j: Seq<char>| #![trigger has_key(inner, j)] has_key(inner, j) implies value_of(inner, j) == g(a, j) by {
                                            if has_key(prev, a) {
                                                assert(has_key(value_of(prev, a)@, j) <==> f(a, j) > 0);
                                                if has_key(value_of(prev, a)@, j) {
                                                    assert(value_of(value_of(prev, a)@, j) == f(a, j));
                                                }
                                            } else {
                                                assert(f(a, j) == 0);
                                            }
                                        }
                                        assert(has_key(inner, tl@));
                                    } else {
                                        assert(has_key(prev, a));
                                        assert(value_of(map@, a) == value_of(prev, a));
                                        assert(counts_match(value_of(prev, a)@, |b: Seq<char>| f(a, b)));
                                        assert forall|j: Seq<char>| #[trigger] g(a, j) == f(a, j) by {}
                                    }
                                }
                                assert forall|a: Seq<char>, b: Seq<char>| !has_key(map@, a) implies #[trigger] g(a, b) == 0 by {
                                    assert(!has_key(prev, a));
                                }
                            }
                        },
                        _ => {},
                    }
                },
                _ => {},
            }
        }
        if !done {
            proof {
                assert forall|a: Seq<char>, b: Seq<char>| #[trigger] g(a, b) == f(a, b) by {
                    assert(layer_pair_count(nodes, edges.take(i + 1), a, b) == layer_pair_count(nodes, edges.take(i as int), a, b));
                }
                assert forall|a: Seq<char>| #![trigger has_key(map@, a)]
                    has_key(map@, a) implies counts_match(value_of(map@, a)@, |b: Seq<char>| g(a, b)) by {
                    assert(counts_match(value_of(prev, a)@, |b: Seq<char>| f(a, b)));
                    assert forall|j: Seq<char>| #[trigger] g(a, j) == f(a, j) by {}
                }
            }
        }
        i += 1;
    }
    assert(edges.take(edges.len() as int) =~= edges);
    map
}


/// A type or entity node that no relevant edge touches.
pub open spec fn is_orphan(nodes: Seq<(Seq<char>, Node)>, edges: Seq<Edge>, e: (Seq<char>, Node)) -> bool {
    is_diagram_kind(e.1.kind) && degree(nodes, edges, e.0, true) == 0 && degree(nodes, edges, e.0, false) == 0
}

/// The ids of the orphan nodes, in id order.
pub open spec fn orphan_ids(nodes: Seq<(Seq<char>, Node)>, edges: Seq<Edge>) -> Seq<Seq<char>> {
    nodes.filter(|e: (Seq<char>, Node)| is_orphan(nodes, edges, e)).map_values(|e: (Seq<char>, Node)| e.0)
}

fn orphan_list(graph: &Graph, fan_in: &KeyMap<usize>, fan_out: &KeyMap<usize>) -> (r: Vec<String>)
    requires
        counts_match(fan_in@, |k: Seq<char>| degree(graph.nodes@, graph.edges@, k, true)),
        counts_match(fan_out@, |k: Seq<char>| degree(graph.nodes@, graph.edges@, k, false)),
    ensures
        strs_view(r@) == orphan_ids(graph.nodes@, graph.edges@),
{
    let es = graph.nodes.entries();
    let ghost nodes = graph.nodes@;
    let ghost edges = graph.edges@;
    let ghost pred = |e: (Seq<char>, Node)| is_orphan(nodes, edges, e);
    let mut out: Vec<String> = Vec::new();
    let mut i: usize = 0;
    while i < es.len()
        invariant
            i <= nodes.len(),
            key_view(es@) == nodes,
            nodes == graph.nodes@,
            edges == graph.edges@,
            pred == (|e: (Seq<char>, Node)| is_orphan(nodes, edges, e)),
            counts_match(fan_in@, |k: Seq<char>| degree(nodes, edges, k, true)),
            counts_match(fan_out@, |k: Seq<char>| degree(nodes, edges, k, false)),
            strs_view(out@) == nodes.take(i as int).filter(pred).map_values(|e: (Seq<char>, Node)| e.0),
        decreases es.len() - i,
    {
        proof {
            lemma_key_view_index(es@, i as int);
            let t = nodes.take(i + 1);
            assert(t =~= nodes.take(i as int).push(nodes[i as int]));
            nodes.take(i as int).lemma_filter_push(nodes[i as int], pred);
        }
        let ghost before = out@;
        let keep = (es[i].1.kind == NodeKind::Type || es[i].1.kind == NodeKind::Entity) && !fan_in.contains_key(
            es[i].0.as_str(),
        ) && !fan_out.contains_key(es[i].0.as_str());
        assert(keep == pred(nodes[i as int]));
        if keep {
            out.push(es[i].0.clone());
            assert(strs_view(out@) =~= strs_view(before).push(nodes[i as int].0));
        }
        proof {
            let f = nodes.take(i as int).filter(pred);
            let g = nodes.take(i + 1).filter(pred);
            if keep {
                assert(g == f.push(nodes[i as int]));
                assert(g.map_values(|e: (Seq<char>, Node)| e.0) =~= f.map_values(|e: (Seq<char>, Node)| e.0).push(nodes[i as int].0));
            } else {
                assert(g == f);
            }
        }
        i += 1;
    }
    assert(nodes.take(nodes.len() as int) =~= nodes);
    out
}

/// An edge that joins two diagram nodes in the component count.
pub open spec fn component_edge(nodes: Seq<(Seq<char>, Node)>, e: Edge) -> bool {
    relevant(nodes, e) && is_diagram_id(nodes, e.from@) && is_diagram_id(nodes, e.to@)
}

/// Each component edge in both directions, as import edges: reachability
/// over this list is undirected connectivity between diagram nodes.
pub open spec fn linked_edges(nodes: Seq<(Seq<char>, Node)>, edges: Seq<Edge>) -> Seq<Edge>
    decreases edges.len(),
{
    if edges.len() == 0 {
        Seq::empty()
    } else {
        let e = edges.last();
        let rest = linked_edges(nodes, edges.drop_last());
        if component_edge(nodes, e) {
            rest.push(Edge { from: e.from, to: e.to, kind: EdgeKind::Imports }).push(
                Edge { from: e.to, to: e.from, kind: EdgeKind::Imports },
            )
        } else {
            rest
        }
    }
}

/// The ids of the diagram nodes, in id order.
pub open spec fn diagram_ids(nodes: Seq<(Seq<char>, Node)>) -> Seq<Seq<char>> {
    nodes.filter(|e: (Seq<char>, Node)| is_diagram_kind(e.1.kind)).map_values(|e: (Seq<char>, Node)| e.0)
}

/// Whether `ids[i]` is connected to no earlier id: the first member of its component.
pub open spec fn starts_component(ids: Seq<Seq<char>>, links: Seq<Edge>, i: int) -> bool {
    forall|j: int| 0 <= j < i ==> !#[trigger] reaches(links, ids[j], ids[i])
}

/// The number of ids among the first `n` that start a component.
pub open spec fn component_total(ids: Seq<Seq<char>>, links: Seq<Edge>, n: nat) -> nat
    decreases n,
{
    if n == 0 {
        0
    } else {
        component_total(ids, links, (n - 1) as nat) + if starts_component(ids, links, n - 1) {
            1nat
        } else {
            0nat
        }
    }
}

/// The number of connected components among the diagram nodes, counting
/// only relevant edges whose two ends are diagram nodes.
pub open spec fn component_count_of(nodes: Seq<(Seq<char>, Node)>, edges: Seq<Edge>) -> nat {
    let ids = diagram_ids(nodes);
    component_total(ids, linked_edges(nodes, edges), ids.len())
}

pub(crate) fn build_links(graph: &Graph, diagram: &KeySet) -> (r: Vec<Edge>)
    requires
        forall|k: Seq<char>| has_key(diagram@, k) <==> is_diagram_id(graph.nodes@, k),
    ensures
        r@ == linked_edges(graph.nodes@, graph.edges@),
{
    let ghost nodes = graph.nodes@;
    let ghost edges = graph.edges@;
    let mut out: Vec<Edge> = Vec::new();
    let mut i: usize = 0;
    while i < graph.edges.len()
        invariant
            i <= edges.len(),
            nodes == graph.nodes@,
            edges == graph.edges@,
            forall|k: Seq<char>| has_key(diagram@, k) <==> is_diagram_id(nodes, k),
            out@ == linked_edges(nodes, edges.take(i as int)),
        decreases graph.edges.len() - i,
    {
        let e = &graph.edges[i];
        proof {
            let t = edges.take(i + 1);
            assert(t.drop_last() =~= edges.take(i as int));
            assert(t.last() == edges[i as int]);
        }
        if is_relevant(graph, e) && diagram.contains_key(e.from.as_str()) && diagram.contains_key(e.to.as_str()) {
            out.push(Edge { from: e.from.clone(), to: e.to.clone(), kind: EdgeKind::Imports });
            out.push(Edge { from: e.to.clone(), to: e.from.clone(), kind: EdgeKind::Imports });
        }
        i += 1;
    }
    assert(edges.take(edges.len() as int) =~= edges);
    out
}

/// Adds every key of `add` to `set`.
pub(crate) fn union_into(set: &mut KeySet, add: &KeySet)
    requires
        sorted_keys(old(set)@),
    ensures
        sorted_keys(final(set)@),
        forall|k: Seq<char>| has_key(final(set)@, k) <==> (has_key(old(set)@, k) || has_key(add@, k)),
{
    let es = add.entries();
    let mut i: usize = 0;
    while i < es.len()
        invariant
            i <= es@.len(),
            key_view(es@) == add@,
            sorted_keys(set@),
            forall|k: Seq<char>| has_key(set@, k) <==> (has_key(old(set)@, k) || has_key(add@.take(i as int), k)),
        decreases es.len() - i,
    {
        let ghost prev = set@;
        proof {
            lemma_key_view_index(es@, i as int);
            crate::keymap::lemma_has_key_take(add@, i as int);
        }
        set.insert(es[i].0.clone(), ());
        proof {
            lemma_insert_entry(prev, add@[i as int].0, ());
            assert forall|k: Seq<char>| has_key(set@, k) <==> (has_key(old(set)@, k) || has_key(add@.take(i + 1), k)) by {
                assert(has_key(set@, k) <==> (has_key(prev, k) || k == add@[i as int].0));
                assert(has_key(add@.take(i + 1), k) <==> (has_key(add@.take(i as int), k) || k == add@[i as int].0));
            }
        }
        i += 1;
    }
    assert(add@.take(es@.len() as int) =~= add@);
    proof {
        if es@.len() == 0 {
            assert forall|k: Seq<char>| !has_key(add@, k) by {}
        }
    }
}


pub(crate) fn diagram_id_list(graph: &Graph) -> (r: Vec<String>)
    ensures
        strs_view(r@) == diagram_ids(graph.nodes@),
{
    let es = graph.nodes.entries();
    let ghost nodes = graph.nodes@;
    let ghost pred = |e: (Seq<char>, Node)| is_diagram_kind(e.1.kind);
    let mut out: Vec<String> = Vec::new();
    let mut i: usize = 0;
    while i < es.len()
        invariant
            i <= nodes.len(),
            key_view(es@) == nodes,
            nodes == graph.nodes@,
            pred == (|e: (Seq<char>, Node)| is_diagram_kind(e.1.kind)),
            strs_view(out@) == nodes.take(i as int).filter(pred).map_values(|e: (Seq<char>, Node)| e.0),
        decreases es.len() - i,
    {
        proof {
            lemma_key_view_index(es@, i as int);
            let t = nodes.take(i + 1);
            assert(t =~= nodes.take(i as int).push(nodes[i as int]));
            nodes.take(i as int).lemma_filter_push(nodes[i as int], pred);
        }
        let ghost before = out@;
        let keep = es[i].1.kind == NodeKind::Type || es[i].1.kind == NodeKind::Entity;
        assert(keep == pred(nodes[i as int]));
        if keep {
            out.push(es[i].0.clone());
            assert(strs_view(out@) =~= strs_view(before).push(nodes[i as int].0));
        }
        proof {
            let f = nodes.take(i as int).filter(pred);
            let g = nodes.take(i + 1).filter(pred);
            if keep {
                assert(g == f.push(nodes[i as int]));
                assert(g.map_values(|e: (Seq<char>, Node)| e.0) =~= f.map_values(|e: (Seq<char>, Node)| e.0).push(nodes[i as int].0));
            } else {
                assert(g == f);
            }
        }
        i += 1;
    }
    assert(nodes.take(nodes.len() as int) =~= nodes);
    out
}

/// The number of connected components among the diagram nodes.
fn count_components(graph: &Graph) -> (r: usize)
    ensures
        r == component_count_of(graph.nodes@, graph.edges@),
{
    let diagram = graph.diagram_node_ids();
    proof {
        assert forall|k: Seq<char>| has_key(diagram@, k) <==> is_diagram_id(graph.nodes@, k) by {}
    }
    let links = build_links(graph, &diagram);
    let ghost l = links@;
    let linked = Graph { nodes: KeyMap::new(), edges: links, members: KeyMap::new() };
    let ids = diagram_id_list(graph);
    let ghost d = strs_view(ids@);
    let mut covered: KeySet = KeyMap::new();
    let mut count: usize = 0;
    let mut i: usize = 0;
    while i < ids.len()
        invariant
            i <= ids@.len(),
            d == strs_view(ids@),
            l == linked.edges@,
            count == component_total(d, l, i as nat),
            count <= i,
            sorted_keys(covered@),
            forall|k: Seq<char>|
                has_key(covered@, k) <==> exists|j: int| 0 <= j < i && #[trigger] reaches(l, d[j], k),
        decreases ids.len() - i,
    {
        assert(d[i as int] == ids@[i as int]@);
        if covered.contains_key(ids[i].as_str()) {
            proof {
                let j0 = choose|j: int| 0 <= j < i && #[trigger] reaches(l, d[j], d[i as int]);
                assert(!starts_component(d, l, i as int));
                assert forall|k: Seq<char>|
                    has_key(covered@, k) <==> exists|j: int| 0 <= j < i + 1 && #[trigger] reaches(l, d[j], k) by {
                    if exists|j: int| 0 <= j < i + 1 && #[trigger] reaches(l, d[j], k) {
                        let j1 = choose|j: int| 0 <= j < i + 1 && #[trigger] reaches(l, d[j], k);
                        if j1 == i {
                            lemma_reaches_transitive(l, d[j0], d[i as int], k);
                        }
                    }
                }
            }
        } else {
            proof {
                assert forall|j: int| 0 <= j < i implies !#[trigger] reaches(l, d[j], d[i as int]) by {
                    if reaches(l, d[j], d[i as int]) {
                        assert(has_key(covered@, d[i as int]));
                    }
                }
                assert(starts_component(d, l, i as int));
            }
            count = count + 1;
            let component = import_closure(&linked, ids[i].as_str());
            let ghost prev = covered@;
            union_into(&mut covered, &component);
            proof {
                assert forall|k: Seq<char>|
                    has_key(covered@, k) <==> exists|j: int| 0 <= j < i + 1 && #[trigger] reaches(l, d[j], k) by {
                    if exists|j: int| 0 <= j < i + 1 && #[trigger] reaches(l, d[j], k) {
                        let j1 = choose|j: int| 0 <= j < i + 1 && #[trigger] reaches(l, d[j], k);
                        if j1 < i {
                            assert(has_key(prev, k));
                        }
                    }
                    if has_key(prev, k) {
                        let j1 = choose|j: int| 0 <= j < i && #[trigger] reaches(l, d[j], k);
                        assert(0 <= j1 < i + 1 && reaches(l, d[j1], k));
                    }
                    if has_key(component@, k) {
                        assert(reaches(l, d[i as int], k));
                    }
                }
            }
        }
        i += 1;
    }
    count
}


/// A relevant import edge.
pub open spec fn is_import(nodes: Seq<(Seq<char>, Node)>, e: Edge) -> bool {
    relevant(nodes, e) && e.kind == EdgeKind::Imports
}

/// Some relevant import edge leads from `a` to `b`.
pub open spec fn import_link(nodes: Seq<(Seq<char>, Node)>, edges: Seq<Edge>, a: Seq<char>, b: Seq<char>) -> bool {
    exists|i: int| 0 <= i < edges.len() && is_import(nodes, #[trigger] edges[i]) && edges[i].from@ == a && edges[i].to@ == b
}

/// `x` is an end of some relevant import edge.
pub open spec fn import_endpoint(nodes: Seq<(Seq<char>, Node)>, edges: Seq<Edge>, x: Seq<char>) -> bool {
    exists|i: int| 0 <= i < edges.len() && is_import(nodes, #[trigger] edges[i]) && (edges[i].from@ == x || edges[i].to@ == x)
}

/// `c` is a closed walk along relevant import edges: each id links to the
/// next, and the last links back to the first.
pub open spec fn is_import_cycle(nodes: Seq<(Seq<char>, Node)>, edges: Seq<Edge>, c: Seq<Seq<char>>) -> bool {
    &&& c.len() > 0
    &&& forall|k: int| 0 <= k < c.len() - 1 ==> import_link(nodes, edges, #[trigger] c[k], c[k + 1])
    &&& import_link(nodes, edges, c.last(), c[0])
}

/// Position `i` of a sequence of length `len` read from offset `shift`, wrapping around.
pub open spec fn rotated(i: int, shift: int, len: int) -> int {
    if i + shift < len {
        i + shift
    } else {
        i + shift - len
    }
}

/// `b` is `a` read from offset `shift` onwards.
pub open spec fn matches_at(a: Seq<Seq<char>>, b: Seq<Seq<char>>, shift: int) -> bool {
    forall|i: int| 0 <= i < a.len() ==> #[trigger] a[rotated(i, shift, a.len() as int)] == b[i]
}

/// `b` is `a` read from some starting point: the same cycle.
pub open spec fn is_rotation(a: Seq<Seq<char>>, b: Seq<Seq<char>>) -> bool {
    a.len() == b.len() && exists|shift: int| 0 <= shift < a.len() && #[trigger] matches_at(a, b, shift)
}

/// The character views of a list of id lists.
pub open spec fn cycles_view(c: Seq<Vec<String>>) -> Seq<Seq<Seq<char>>> {
    c.map_values(|v: Vec<String>| strs_view(v@))
}

/// Every reported cycle is an import cycle, and no two are rotations of each other.
pub open spec fn cycles_ok(nodes: Seq<(Seq<char>, Node)>, edges: Seq<Edge>, c: Seq<Seq<Seq<char>>>) -> bool {
    &&& forall|p: int| 0 <= p < c.len() ==> is_import_cycle(nodes, edges, #[trigger] c[p])
    &&& forall|p: int, q: int| 0 <= p < q < c.len() ==> !is_rotation(#[trigger] c[p], #[trigger] c[q])
}

/// Whether two id lists describe the same cycle.
fn same_cycle(a: &Vec<String>, b: &Vec<String>) -> (r: bool)
    ensures
        r == is_rotation(strs_view(a@), strs_view(b@)),
{
    let ghost av = strs_view(a@);
    let ghost bv = strs_view(b@);
    if a.len() != b.len() {
        return false;
    }
    let len = a.len();
    let mut shift: usize = 0;
    while shift < len
        invariant
            len == a@.len(),
            len == b@.len(),
            av == strs_view(a@),
            bv == strs_view(b@),
            shift <= len,
            forall|s: int|
                0 <= s < shift ==> !#[trigger] matches_at(av, bv, s),
        decreases len - shift,
    {
        let mut all = true;
        let mut i: usize = 0;
        while i < len
            invariant
                len == a@.len(),
                len == b@.len(),
                av == strs_view(a@),
                bv == strs_view(b@),
                shift < len,
                i <= len,
                all == forall|j: int| 0 <= j < i ==> #[trigger] av[rotated(j, shift as int, len as int)] == bv[j],
            decreases len - i,
        {
            let idx = if i < len - shift {
                i + shift
            } else {
                i - (len - shift)
            };
            let same = str_equal(a[idx].as_str(), b[i].as_str());
            proof {
                assert(av[idx as int] == a@[idx as int]@);
                assert(bv[i as int] == b@[i as int]@);
                assert(idx == rotated(i as int, shift as int, len as int));
            }
            all = all && same;
            i += 1;
        }
        assert(av.len() == len);
        assert(all == matches_at(av, bv, shift as int));
        if all {
            return true;
        }
        shift += 1;
    }
    false
}


/// Each id links to the next along relevant import edges.
pub open spec fn is_import_path(nodes: Seq<(Seq<char>, Node)>, edges: Seq<Edge>, c: Seq<Seq<char>>) -> bool {
    forall|k: int| 0 <= k < c.len() - 1 ==> import_link(nodes, edges, #[trigger] c[k], c[k + 1])
}

/// Every listed successor of an id is linked to it by a relevant import edge,
/// and no successor list is empty.
pub open spec fn adjacency_sound(adj: Seq<(Seq<char>, Vec<String>)>, nodes: Seq<(Seq<char>, Node)>, edges: Seq<Edge>) -> bool {
    forall|a: Seq<char>| #![trigger has_key(adj, a)]
        has_key(adj, a) ==> value_of(adj, a)@.len() > 0 && forall|j: int|
            0 <= j < value_of(adj, a)@.len() ==> import_link(nodes, edges, a, #[trigger] value_of(adj, a)@[j]@)
}

/// The number of ends of relevant import edges outside `vis`, counted once per edge end.
pub open spec fn unseen(nodes: Seq<(Seq<char>, Node)>, edges: Seq<Edge>, vis: Set<Seq<char>>) -> nat
    decreases edges.len(),
{
    if edges.len() == 0 {
        0
    } else {
        let e = edges.last();
        unseen(nodes, edges.drop_last(), vis) + if is_import(nodes, e) {
            (if vis.contains(e.from@) {
                0nat
            } else {
                1nat
            }) + (if vis.contains(e.to@) {
                0nat
            } else {
                1nat
            })
        } else {
            0nat
        }
    }
}

pub(crate) proof fn lemma_unseen_mono(nodes: Seq<(Seq<char>, Node)>, edges: Seq<Edge>, a: Set<Seq<char>>, b: Set<Seq<char>>, x: Seq<char>)
    requires
        a.subset_of(b),
    ensures
        unseen(nodes, edges, b) <= unseen(nodes, edges, a),
        !a.contains(x) && b.contains(x) && import_endpoint(nodes, edges, x) ==> unseen(nodes, edges, b) < unseen(
            nodes,
            edges,
            a,
        ),
    decreases edges.len(),
{
    if edges.len() > 0 {
        let t = edges.drop_last();
        lemma_unseen_mono(nodes, t, a, b, x);
        if !a.contains(x) && b.contains(x) && import_endpoint(nodes, edges, x) {
            let i = choose|i: int|
                0 <= i < edges.len() && is_import(nodes, #[trigger] edges[i]) && (edges[i].from@ == x || edges[i].to@ == x);
            if i < t.len() {
                assert(t[i] == edges[i]);
                assert(import_endpoint(nodes, t, x));
            }
        }
    }
}

/// A copy of a list of strings.
pub(crate) fn clone_strings(v: &Vec<String>) -> (r: Vec<String>)
    ensures
        r@ == v@,
{
    let mut out: Vec<String> = Vec::new();
    let mut i: usize = 0;
    while i < v.len()
        invariant
            i <= v@.len(),
            out@ == v@.take(i as int),
        decreases v.len() - i,
    {
        out.push(v[i].clone());
        assert(out@ =~= v@.take(i + 1));
        i += 1;
    }
    assert(v@.take(v@.len() as int) =~= v@);
    out
}

/// A successor map read as plain values.
pub open spec fn adj_view(adj: Seq<(Seq<char>, Vec<String>)>) -> Seq<(Seq<char>, Seq<Seq<char>>)> {
    map_vals(adj, |v: Vec<String>| strs_view(v@))
}

/// The successors listed for `a`, none when it has no entry.
pub open spec fn successors(adj: Seq<(Seq<char>, Seq<Seq<char>>)>, a: Seq<char>) -> Seq<Seq<char>> {
    if has_key(adj, a) {
        value_of(adj, a)
    } else {
        Seq::empty()
    }
}

/// The successors of each id along relevant import edges, in edge order, by id.
pub open spec fn import_successors(nodes: Seq<(Seq<char>, Node)>, edges: Seq<Edge>) -> Seq<(Seq<char>, Seq<Seq<char>>)>
    decreases edges.len(),
{
    if edges.len() == 0 {
        Seq::empty()
    } else {
        let a = import_successors(nodes, edges.drop_last());
        let e = edges.last();
        if is_import(nodes, e) {
            insert_entry(a, e.from@, successors(a, e.from@).push(e.to@))
        } else {
            a
        }
    }
}

pub(crate) proof fn lemma_import_successors_sorted(nodes: Seq<(Seq<char>, Node)>, edges: Seq<Edge>)
    ensures
        sorted_keys(import_successors(nodes, edges)),
    decreases edges.len(),
{
    if edges.len() > 0 {
        lemma_import_successors_sorted(nodes, edges.drop_last());
        let a = import_successors(nodes, edges.drop_last());
        let e = edges.last();
        if is_import(nodes, e) {
            lemma_insert_entry(a, e.from@, successors(a, e.from@).push(e.to@));
        }
    }
}

/// The successors of each id along relevant import edges, in edge order.
fn import_adjacency(graph: &Graph) -> (r: KeyMap<Vec<String>>)
    ensures
        sorted_keys(r@),
        adjacency_sound(r@, graph.nodes@, graph.edges@),
        adj_view(r@) == import_successors(graph.nodes@, graph.edges@),
{
    let ghost nodes = graph.nodes@;
    let ghost edges = graph.edges@;
    let mut adj: KeyMap<Vec<String>> = KeyMap::new();
    let mut i: usize = 0;
    assert(adj_view(adj@) =~= Seq::<(Seq<char>, Seq<Seq<char>>)>::empty());
    assert(edges.take(0) =~= Seq::<Edge>::empty());
    while i < graph.edges.len()
        invariant
            i <= edges.len(),
            nodes == graph.nodes@,
            edges == graph.edges@,
            sorted_keys(adj@),
            adjacency_sound(adj@, nodes, edges),
            adj_view(adj@) == import_successors(nodes, edges.take(i as int)),
        decreases graph.edges.len() - i,
    {
        let e = &graph.edges[i];
        proof {
            let t = edges.take(i + 1);
            assert(t.drop_last() =~= edges.take(i as int));
            assert(t.last() == edges[i as int]);
        }
        if is_relevant(graph, e) && e.kind == EdgeKind::Imports {
            let ghost prev = adj@;
            let mut list = match adj.get(e.from.as_str()) {
                Some(v) => clone_strings(v),
                None => Vec::new(),
            };
            let ghost old_list = list@;
            proof {
                let f = |v: Vec<String>| strs_view(v@);
                lemma_map_vals(prev, e.from@, list, f);
                if has_key(prev, e.from@) {
                    assert(strs_view(old_list) == successors(adj_view(prev), e.from@));
                } else {
                    assert(strs_view(old_list) =~= successors(adj_view(prev), e.from@));
                }
            }
            list.push(e.to.clone());
            let ghost new_list = list;
            adj.insert(e.from.clone(), list);
            proof {
                let f = |v: Vec<String>| strs_view(v@);
                lemma_map_vals(prev, e.from@, new_list, f);
                assert(strs_view(new_list@) =~= strs_view(old_list).push(e.to@));
                assert(is_import(nodes, edges[i as int]));
                lemma_insert_entry(prev, e.from@, new_list);
                assert(import_link(nodes, edges, e.from@, e.to@)) by {
                    assert(is_import(nodes, edges[i as int]));
                }
                assert forall|a: Seq<char>| #![trigger has_key(adj@, a)]
                    has_key(adj@, a) implies value_of(adj@, a)@.len() > 0 && forall|j: int|
                        0 <= j < value_of(adj@, a)@.len() ==> import_link(nodes, edges, a, #[trigger] value_of(adj@, a)@[j]@) by {
                    if a == e.from@ {
                        assert(value_of(adj@, a) == new_list);
                        assert(new_list@ == old_list.push(e.to));
                        assert forall|j: int| 0 <= j < new_list@.len() implies import_link(nodes, edges, a, #[trigger] new_list@[j]@) by {
                            if j < old_list.len() {
                                assert(has_key(prev, a));
                                assert(old_list == value_of(prev, a)@);
                                assert(new_list@[j] == value_of(prev, a)@[j]);
                            } else {
                                assert(new_list@[j] == e.to);
                            }
                        }
                    } else {
                        assert(has_key(prev, a));
                        assert(value_of(adj@, a) == value_of(prev, a));
                    }
                }
            }
        } else {
            assert(!is_import(nodes, edges[i as int]));
        }
        i += 1;
    }
    assert(edges.take(edges.len() as int) =~= edges);
    adj
}


/// Whether `cycles` already holds a rotation of `c`.
fn known_cycle(cycles: &Vec<Vec<String>>, c: &Vec<String>) -> (r: bool)
    ensures
        r == exists|p: int| 0 <= p < cycles@.len() && is_rotation(#[trigger] cycles_view(cycles@)[p], strs_view(c@)),
{
    let ghost cv = cycles_view(cycles@);
    let mut q: usize = 0;
    while q < cycles.len()
        invariant
            q <= cycles@.len(),
            cv == cycles_view(cycles@),
            forall|p: int| 0 <= p < q ==> !is_rotation(#[trigger] cv[p], strs_view(c@)),
        decreases cycles.len() - q,
    {
        assert(cv[q as int] == strs_view(cycles@[q as int]@));
        if same_cycle(&cycles[q], c) {
            return true;
        }
        q += 1;
    }
    false
}

/// The state of the cycle search: the ids visited, the current path and
/// the cycles found so far.
pub struct SearchState {
    pub visited: Set<Seq<char>>,
    pub path: Seq<Seq<char>>,
    pub cycles: Seq<Seq<Seq<char>>>,
}

/// The position of the first `x` in `s` (its length when absent).
pub open spec fn first_pos(s: Seq<Seq<char>>, x: Seq<char>) -> int
    decreases s.len(),
{
    if s.len() == 0 {
        0
    } else if s[0] == x {
        0
    } else {
        1 + first_pos(s.skip(1), x)
    }
}

proof fn lemma_first_pos(s: Seq<Seq<char>>, x: Seq<char>, i: int)
    requires
        0 <= i < s.len(),
        s[i] == x,
        forall|j: int| 0 <= j < i ==> s[j] != x,
    ensures
        first_pos(s, x) == i,
    decreases i,
{
    if i > 0 {
        assert forall|j: int| 0 <= j < i - 1 implies s.skip(1)[j] != x by {
            assert(s.skip(1)[j] == s[j + 1]);
        }
        assert(s.skip(1)[i - 1] == s[i]);
        lemma_first_pos(s.skip(1), x, i - 1);
    }
}

/// An edge back to `next` on the path closes the cycle from `next` to the
/// end of the path; it is recorded unless a rotation of it already is.
pub open spec fn close_cycle(st: SearchState, next: Seq<char>) -> SearchState {
    let c = st.path.skip(first_pos(st.path, next));
    if exists|p: int| 0 <= p < st.cycles.len() && is_rotation(#[trigger] st.cycles[p], c) {
        st
    } else {
        SearchState { cycles: st.cycles.push(c), ..st }
    }
}

/// Visiting `node`: it is marked visited and put on the path, its successors
/// are followed in order, and it leaves the path; `fuel` bounds the depth.
pub open spec fn visit(adj: Seq<(Seq<char>, Seq<Seq<char>>)>, node: Seq<char>, st: SearchState, fuel: nat) -> SearchState
    decreases fuel, 0nat, 0int,
{
    if fuel == 0 {
        st
    } else {
        let entered = SearchState { visited: st.visited.insert(node), path: st.path.push(node), cycles: st.cycles };
        let done = follow(adj, successors(adj, node), 0, entered, (fuel - 1) as nat);
        SearchState { path: done.path.drop_last(), ..done }
    }
}

/// Following the successors from position `i` on: an unvisited one is
/// visited, one on the path closes a cycle, others are passed over.
pub open spec fn follow(
    adj: Seq<(Seq<char>, Seq<Seq<char>>)>,
    next_ids: Seq<Seq<char>>,
    i: int,
    st: SearchState,
    fuel: nat,
) -> SearchState
    decreases fuel, 1nat, next_ids.len() - i,
{
    if i < 0 || i >= next_ids.len() {
        st
    } else {
        let next = next_ids[i];
        let st2 = if !st.visited.contains(next) {
            visit(adj, next, st, fuel)
        } else if st.path.contains(next) {
            close_cycle(st, next)
        } else {
            st
        };
        follow(adj, next_ids, i + 1, st2, fuel)
    }
}

/// Searching from each start in order that is not yet visited.
pub open spec fn search_all(adj: Seq<(Seq<char>, Seq<Seq<char>>)>, starts: Seq<Seq<char>>, st: SearchState, fuel: nat) -> SearchState
    decreases starts.len(),
{
    if starts.len() == 0 {
        st
    } else {
        let s = search_all(adj, starts.drop_last(), st, fuel);
        if s.visited.contains(starts.last()) {
            s
        } else {
            visit(adj, starts.last(), s, fuel)
        }
    }
}

/// The import cycles that metrics report: a depth-first search from each id
/// that has import successors, in id order, following successors in edge
/// order; each edge back to an id on the current path closes a cycle, kept
/// unless a rotation of it was found before. The depth bound exceeds the
/// number of ids the search can visit, so it is never reached.
pub open spec fn found_cycles(nodes: Seq<(Seq<char>, Node)>, edges: Seq<Edge>) -> Seq<Seq<Seq<char>>> {
    let adj = import_successors(nodes, edges);
    search_all(
        adj,
        adj.map_values(|e: (Seq<char>, Seq<Seq<char>>)| e.0),
        SearchState { visited: Set::empty(), path: Seq::empty(), cycles: Seq::empty() },
        unseen(nodes, edges, Set::empty()) + 1,
    ).cycles
}

/// The search state held by the visited set, path and cycle list.
pub open spec fn state_of(visited: Seq<(Seq<char>, ())>, path: Seq<String>, cycles: Seq<Vec<String>>) -> SearchState {
    SearchState { visited: key_set(visited), path: strs_view(path), cycles: cycles_view(cycles) }
}

/// The ids on the path are exactly the ids marked on it, all visited.
pub open spec fn path_marked(visited: Seq<(Seq<char>, ())>, on_stack: Seq<(Seq<char>, ())>, path: Seq<String>) -> bool {
    &&& forall|x: Seq<char>| #[trigger] has_key(on_stack, x) <==> strs_view(path).contains(x)
    &&& forall|x: Seq<char>| strs_view(path).contains(x) ==> #[trigger] has_key(visited, x)
}

/// Depth-first search from `node` along import successors, recording each
/// cycle closed by an edge back to an id on the current path.
fn cycle_dfs(
    node: &String,
    adj: &KeyMap<Vec<String>>,
    visited: &mut KeySet,
    on_stack: &mut KeySet,
    stack: &mut Vec<String>,
    cycles: &mut Vec<Vec<String>>,
    Ghost(nodes): Ghost<Seq<(Seq<char>, Node)>>,
    Ghost(edges): Ghost<Seq<Edge>>,
    Ghost(fuel): Ghost<nat>,
)
    requires
        fuel > unseen(nodes, edges, key_set(old(visited)@)),
        adjacency_sound(adj@, nodes, edges),
        sorted_keys(adj@),
        !has_key(old(visited)@, node@),
        import_endpoint(nodes, edges, node@),
        sorted_keys(old(visited)@),
        sorted_keys(old(on_stack)@),
        path_marked(old(visited)@, old(on_stack)@, old(stack)@),
        is_import_path(nodes, edges, strs_view(old(stack)@)),
        old(stack)@.len() > 0 ==> import_link(nodes, edges, old(stack)@.last()@, node@),
        cycles_ok(nodes, edges, cycles_view(old(cycles)@)),
    ensures
        final(stack)@ == old(stack)@,
        forall|k: Seq<char>| has_key(old(visited)@, k) ==> has_key(final(visited)@, k),
        has_key(final(visited)@, node@),
        sorted_keys(final(visited)@),
        sorted_keys(final(on_stack)@),
        path_marked(final(visited)@, final(on_stack)@, final(stack)@),
        cycles_ok(nodes, edges, cycles_view(final(cycles)@)),
        state_of(final(visited)@, final(stack)@, final(cycles)@) == visit(
            adj_view(adj@),
            node@,
            state_of(old(visited)@, old(stack)@, old(cycles)@),
            fuel,
        ),
    decreases fuel,
{
    let ghost a = adj_view(adj@);
    let ghost st0 = state_of(visited@, stack@, cycles@);
    let ghost visited0 = visited@;
    let ghost stack0 = stack@;
    let ghost v0 = visited@;
    visited.insert(node.clone(), ());
    proof {
        lemma_insert_entry(v0, node@, ());
    }
    let ghost o0 = on_stack@;
    on_stack.insert(node.clone(), ());
    proof {
        lemma_insert_entry(o0, node@, ());
    }
    stack.push(node.clone());
    proof {
        let sv = strs_view(stack@);
        let s0 = strs_view(stack0);
        assert(sv =~= s0.push(node@));
        assert forall|k: int| 0 <= k < sv.len() - 1 implies import_link(nodes, edges, #[trigger] sv[k], sv[k + 1]) by {
            if k < s0.len() - 1 {
                assert(sv[k] == s0[k] && sv[k + 1] == s0[k + 1]);
            } else {
                assert(sv[k] == stack0.last()@);
            }
        }
        assert forall|x: Seq<char>| #[trigger] has_key(on_stack@, x) <==> sv.contains(x) by {
            assert(has_key(o0, x) <==> s0.contains(x));
            assert(has_key(on_stack@, x) <==> (has_key(o0, x) || x == node@));
            if sv.contains(x) && x != node@ {
                let j = choose|j: int| 0 <= j < sv.len() && sv[j] == x;
                assert(s0[j] == x);
            }
            if s0.contains(x) {
                let j = choose|j: int| 0 <= j < s0.len() && s0[j] == x;
                assert(sv[j] == x);
            }
            assert(sv[sv.len() - 1] == node@);
        }
        assert forall|x: Seq<char>| sv.contains(x) implies #[trigger] has_key(visited@, x) by {
            assert(has_key(visited@, x) <==> (has_key(v0, x) || x == node@));
            if x != node@ {
                let j = choose|j: int| 0 <= j < sv.len() && sv[j] == x;
                assert(s0[j] == x);
                assert(s0.contains(x));
                assert(has_key(v0, x));
            }
        }
        assert(key_set(visited@) =~= key_set(v0).insert(node@));
        lemma_unseen_mono(nodes, edges, key_set(v0), key_set(visited@), node@);
        assert(state_of(visited@, stack@, cycles@) == SearchState {
            visited: st0.visited.insert(node@),
            path: st0.path.push(node@),
            cycles: st0.cycles,
        });
    }
    let ghost entered = state_of(visited@, stack@, cycles@);
    let ghost succ = successors(a, node@);
    let empty: Vec<String> = Vec::new();
    let neigh: &Vec<String> = match adj.get(node.as_str()) {
        Some(v) => v,
        None => &empty,
    };
    proof {
        lemma_map_vals(adj@, node@, empty, |v: Vec<String>| strs_view(v@));
        if has_key(adj@, node@) {
            assert(strs_view(neigh@) == succ);
        } else {
            assert(neigh@.len() == 0);
            assert(strs_view(neigh@) =~= succ);
        }
    }
    let mut idx: usize = 0;
    while idx < neigh.len()
        invariant
            adjacency_sound(adj@, nodes, edges),
            sorted_keys(adj@),
            a == adj_view(adj@),
            has_key(adj@, node@) ==> neigh@ == value_of(adj@, node@)@,
            !has_key(adj@, node@) ==> neigh@.len() == 0,
            strs_view(neigh@) == succ,
            idx <= neigh@.len(),
            stack@ == stack0.push(*node),
            is_import_path(nodes, edges, strs_view(stack@)),
            !has_key(visited0, node@),
            import_endpoint(nodes, edges, node@),
            forall|k: Seq<char>| has_key(visited0, k) ==> has_key(visited@, k),
            fuel > 0,
            unseen(nodes, edges, key_set(visited@)) < fuel - 1,
            has_key(visited@, node@),
            sorted_keys(visited@),
            sorted_keys(on_stack@),
            path_marked(visited@, on_stack@, stack@),
            cycles_ok(nodes, edges, cycles_view(cycles@)),
            follow(a, succ, 0, entered, (fuel - 1) as nat) == follow(
                a,
                succ,
                idx as int,
                state_of(visited@, stack@, cycles@),
                (fuel - 1) as nat,
            ),
        decreases neigh.len() - idx,
    {
        let next = &neigh[idx];
        let ghost cur = state_of(visited@, stack@, cycles@);
        proof {
            assert(succ[idx as int] == next@);
            if has_key(adj@, node@) {
                assert(import_link(nodes, edges, node@, neigh@[idx as int]@));
            }
        }
        if !visited.contains_key(next.as_str()) {
            proof {
                assert(has_key(adj@, node@)) by {
                    if !has_key(adj@, node@) {
                        assert(neigh@.len() == 0);
                    }
                }
                let i = choose|i: int|
                    0 <= i < edges.len() && is_import(nodes, #[trigger] edges[i]) && edges[i].from@ == node@
                        && edges[i].to@ == next@;
                assert(import_endpoint(nodes, edges, next@));
                assert(stack@.last() == *node);
                assert(!cur.visited.contains(next@));
            }
            let ghost before = visited@;
            cycle_dfs(next, adj, visited, on_stack, stack, cycles, Ghost(nodes), Ghost(edges), Ghost((fuel - 1) as nat));
            proof {
                assert(key_set(before).subset_of(key_set(visited@)));
                lemma_unseen_mono(nodes, edges, key_set(before), key_set(visited@), node@);
            }
        } else if on_stack.contains_key(next.as_str()) {
            let ghost sv = strs_view(stack@);
            proof {
                assert(cur.visited.contains(next@));
                assert(sv.contains(next@));
            }
            let mut pos: usize = 0;
            while pos < stack.len() && !str_equal(stack[pos].as_str(), next.as_str())
                invariant
                    pos <= stack@.len(),
                    sv == strs_view(stack@),
                    forall|j: int| 0 <= j < pos ==> sv[j] != next@,
                decreases stack.len() - pos,
            {
                assert(sv[pos as int] == stack@[pos as int]@);
                pos += 1;
            }
            proof {
                if pos == stack@.len() {
                    let j = choose|j: int| 0 <= j < sv.len() && sv[j] == next@;
                    assert(false);
                }
                assert(sv[pos as int] == stack@[pos as int]@);
                lemma_first_pos(sv, next@, pos as int);
            }
            let mut cycle: Vec<String> = Vec::new();
            let mut p = pos;
            while p < stack.len()
                invariant
                    pos <= p <= stack@.len(),
                    cycle@ == stack@.subrange(pos as int, p as int),
                decreases stack.len() - p,
            {
                cycle.push(stack[p].clone());
                assert(cycle@ =~= stack@.subrange(pos as int, p + 1));
                p += 1;
            }
            proof {
                let c = strs_view(cycle@);
                assert(c =~= sv.subrange(pos as int, sv.len() as int));
                assert(c =~= sv.skip(pos as int));
                assert(sv[pos as int] == next@);
                assert(sv.last() == node@);
                assert forall|k: int| 0 <= k < c.len() - 1 implies import_link(nodes, edges, #[trigger] c[k], c[k + 1]) by {
                    assert(c[k] == sv[pos + k] && c[k + 1] == sv[pos + k + 1]);
                }
                assert(c.last() == node@);
                assert(c[0] == next@);
                assert(has_key(adj@, node@)) by {
                    if !has_key(adj@, node@) {
                        assert(neigh@.len() == 0);
                    }
                }
                assert(is_import_cycle(nodes, edges, c));
            }
            if !known_cycle(cycles, &cycle) {
                let ghost cv = cycles_view(cycles@);
                cycles.push(cycle);
                proof {
                    let nv = cycles_view(cycles@);
                    assert(nv =~= cv.push(strs_view(cycle@)));
                }
            }
            proof {
                assert(state_of(visited@, stack@, cycles@) == close_cycle(cur, next@));
            }
        } else {
            proof {
                assert(!cur.path.contains(next@));
            }
        }
        idx += 1;
    }
    proof {
        assert(follow(a, succ, idx as int, state_of(visited@, stack@, cycles@), (fuel - 1) as nat) == state_of(
            visited@,
            stack@,
            cycles@,
        ));
    }
    let ghost done = state_of(visited@, stack@, cycles@);
    let nc = chars_of(node.as_str());
    let ghost o1 = on_stack@;
    on_stack.remove(nc.as_slice());
    stack.pop();
    assert(stack@ =~= stack0);
    proof {
        lemma_remove_entry(o1, node@);
        let s0 = strs_view(stack0);
        assert(!s0.contains(node@)) by {
            if s0.contains(node@) {
                assert(has_key(visited0, node@));
            }
        }
        assert forall|x: Seq<char>| #[trigger] has_key(on_stack@, x) <==> s0.contains(x) by {
            let sv = s0.push(node@);
            assert(strs_view(stack0.push(*node)) =~= sv);
            assert(has_key(o1, x) <==> sv.contains(x));
            assert(has_key(on_stack@, x) <==> (has_key(o1, x) && x != node@));
            if s0.contains(x) {
                let j = choose|j: int| 0 <= j < s0.len() && s0[j] == x;
                assert(sv[j] == x);
            }
            if sv.contains(x) && x != node@ {
                let j = choose|j: int| 0 <= j < sv.len() && sv[j] == x;
                assert(s0[j] == x);
            }
        }
        assert(done.path =~= s0.push(node@));
        assert(done.path.drop_last() =~= s0);
    }
}

/// The import cycles found by a depth-first search from each id, in id order.
fn find_cycles(graph: &Graph) -> (r: Vec<Vec<String>>)
    ensures
        cycles_ok(graph.nodes@, graph.edges@, cycles_view(r@)),
        cycles_view(r@) == found_cycles(graph.nodes@, graph.edges@),
{
    let adj = import_adjacency(graph);
    let ghost nodes = graph.nodes@;
    let ghost edges = graph.edges@;
    let ghost a = adj_view(adj@);
    let ghost starts = a.map_values(|e: (Seq<char>, Seq<Seq<char>>)| e.0);
    let ghost fuel: nat = unseen(nodes, edges, Set::empty()) + 1;
    let ghost init = SearchState { visited: Set::empty(), path: Seq::empty(), cycles: Seq::empty() };
    let mut visited: KeySet = KeyMap::new();
    let mut on_stack: KeySet = KeyMap::new();
    let mut stack: Vec<String> = Vec::new();
    let mut cycles: Vec<Vec<String>> = Vec::new();
    proof {
        assert(key_set(visited@) =~= Set::<Seq<char>>::empty());
        assert(strs_view(stack@) =~= Seq::<Seq<char>>::empty());
        assert(cycles_view(cycles@) =~= Seq::<Seq<Seq<char>>>::empty());
        assert(starts.take(0) =~= Seq::<Seq<char>>::empty());
    }
    let es = adj.entries();
    let mut i: usize = 0;
    while i < es.len()
        invariant
            i <= es@.len(),
            key_view(es@) == adj@,
            adjacency_sound(adj@, nodes, edges),
            sorted_keys(adj@),
            a == adj_view(adj@),
            starts == a.map_values(|e: (Seq<char>, Seq<Seq<char>>)| e.0),
            a.len() == adj@.len(),
            fuel == unseen(nodes, edges, Set::empty()) + 1,
            stack@.len() == 0,
            sorted_keys(visited@),
            sorted_keys(on_stack@),
            path_marked(visited@, on_stack@, stack@),
            cycles_ok(nodes, edges, cycles_view(cycles@)),
            state_of(visited@, stack@, cycles@) == search_all(a, starts.take(i as int), init, fuel),
        decreases es.len() - i,
    {
        proof {
            lemma_key_view_index(es@, i as int);
            assert(adj@[i as int].0 == es@[i as int].0@);
            assert(has_key(adj@, es@[i as int].0@));
            assert(value_of(adj@, es@[i as int].0@)@.len() > 0);
            let k = es@[i as int].0@;
            assert(import_link(nodes, edges, k, value_of(adj@, k)@[0]@));
            let w = choose|w: int|
                0 <= w < edges.len() && is_import(nodes, #[trigger] edges[w]) && edges[w].from@ == k && edges[w].to@ == value_of(adj@, k)@[0]@;
            assert(import_endpoint(nodes, edges, k));
            assert(strs_view(stack@) =~= Seq::<Seq<char>>::empty());
            let t = starts.take(i + 1);
            assert(t.drop_last() =~= starts.take(i as int));
            assert(t.last() == k);
            lemma_unseen_mono(nodes, edges, Set::empty(), key_set(visited@), k);
            assert(Set::<Seq<char>>::empty().subset_of(key_set(visited@)));
        }
        if !visited.contains_key(es[i].0.as_str()) {
            cycle_dfs(&es[i].0, &adj, &mut visited, &mut on_stack, &mut stack, &mut cycles, Ghost(nodes), Ghost(edges), Ghost(fuel));
        }
        i += 1;
    }
    proof {
        assert(starts.take(es@.len() as int) =~= starts);
    }
    cycles
}


/// Views of a list of node metrics.
pub open spec fn metric_views(s: Seq<NodeMetric>) -> Seq<NodeMetricView> {
    s.map_values(|m: NodeMetric| m@)
}

/// The metric record of a node entry.
pub open spec fn metric_of(nodes: Seq<(Seq<char>, Node)>, edges: Seq<Edge>, e: (Seq<char>, Node)) -> NodeMetricView {
    NodeMetricView {
        id: e.0,
        name: e.1.name@,
        fan_in: degree(nodes, edges, e.0, true),
        fan_out: degree(nodes, edges, e.0, false),
    }
}

/// A node that some relevant edge touches.
pub open spec fn is_touched(nodes: Seq<(Seq<char>, Node)>, edges: Seq<Edge>, e: (Seq<char>, Node)) -> bool {
    degree(nodes, edges, e.0, true) + degree(nodes, edges, e.0, false) > 0
}

/// The metric records of every touched node, in id order.
pub open spec fn hotspot_candidates(nodes: Seq<(Seq<char>, Node)>, edges: Seq<Edge>) -> Seq<NodeMetricView> {
    nodes.filter(|e: (Seq<char>, Node)| is_touched(nodes, edges, e)).map_values(
        |e: (Seq<char>, Node)| metric_of(nodes, edges, e),
    )
}

/// Hotspot order: larger fan-in plus fan-out first, then by name.
pub open spec fn hot_lt(a: NodeMetricView, b: NodeMetricView) -> bool {
    a.fan_in + a.fan_out > b.fan_in + b.fan_out || (a.fan_in + a.fan_out == b.fan_in + b.fan_out && seq_lt(
        a.name,
        b.name,
    ))
}

/// Inserts `x` after every element not above it (stable insertion).
pub open spec fn insert_hot(s: Seq<NodeMetricView>, x: NodeMetricView) -> Seq<NodeMetricView>
    decreases s.len(),
{
    if s.len() == 0 || !hot_lt(x, s.last()) {
        s.push(x)
    } else {
        insert_hot(s.drop_last(), x).push(s.last())
    }
}

/// Stable sort in hotspot order.
pub open spec fn sort_hot(s: Seq<NodeMetricView>) -> Seq<NodeMetricView>
    decreases s.len(),
{
    if s.len() == 0 {
        s
    } else {
        insert_hot(sort_hot(s.drop_last()), s.last())
    }
}

/// The at most ten leading hotspots.
pub open spec fn top_hotspots(nodes: Seq<(Seq<char>, Node)>, edges: Seq<Edge>) -> Seq<NodeMetricView> {
    let sorted = sort_hot(hotspot_candidates(nodes, edges));
    if sorted.len() <= 10 {
        sorted
    } else {
        sorted.take(10)
    }
}

proof fn lemma_insert_hot_at(s: Seq<NodeMetricView>, x: NodeMetricView, p: int)
    requires
        0 <= p <= s.len(),
        forall|j: int| p <= j < s.len() ==> hot_lt(x, #[trigger] s[j]),
        p == 0 || !hot_lt(x, s[p - 1]),
    ensures
        insert_hot(s, x) == s.insert(p, x),
    decreases s.len(),
{
    if s.len() == 0 || !hot_lt(x, s.last()) {
        if p < s.len() {
            assert(hot_lt(x, s[s.len() - 1]));
        }
        assert(s.push(x) =~= s.insert(p, x));
    } else {
        let t = s.drop_last();
        assert(p < s.len());
        assert forall|j: int| p <= j < t.len() implies hot_lt(x, #[trigger] t[j]) by {
            assert(t[j] == s[j]);
        }
        if p > 0 {
            assert(t[p - 1] == s[p - 1]);
        }
        lemma_insert_hot_at(t, x, p);
        assert(t.insert(p, x).push(s.last()) =~= s.insert(p, x));
    }
}

fn hot_less(a: &NodeMetric, b: &NodeMetric) -> (r: bool)
    requires
        a.fan_in + a.fan_out <= usize::MAX,
        b.fan_in + b.fan_out <= usize::MAX,
    ensures
        r == hot_lt(a@, b@),
{
    let ta = a.fan_in + a.fan_out;
    let tb = b.fan_in + b.fan_out;
    if ta != tb {
        ta > tb
    } else {
        let an = chars_of(a.name.as_str());
        let bn = chars_of(b.name.as_str());
        compare_chars(an.as_slice(), bn.as_slice()) < 0
    }
}

/// The candidates sorted in hotspot order, keeping the first ten.
fn rank_hotspots(v: Vec<NodeMetric>) -> (r: Vec<NodeMetric>)
    requires
        forall|j: int| 0 <= j < v@.len() ==> #[trigger] v@[j].fan_in + v@[j].fan_out <= usize::MAX,
    ensures
        metric_views(r@) == (if sort_hot(metric_views(v@)).len() <= 10 {
            sort_hot(metric_views(v@))
        } else {
            sort_hot(metric_views(v@)).take(10)
        }),
{
    let ghost all = metric_views(v@);
    let mut out: Vec<NodeMetric> = Vec::new();
    let mut i: usize = 0;
    while i < v.len()
        invariant
            i <= v@.len(),
            all == metric_views(v@),
            metric_views(out@) == sort_hot(all.take(i as int)),
            forall|j: int| 0 <= j < v@.len() ==> #[trigger] v@[j].fan_in + v@[j].fan_out <= usize::MAX,
            forall|j: int| 0 <= j < out@.len() ==> #[trigger] out@[j].fan_in + out@[j].fan_out <= usize::MAX,
        decreases v.len() - i,
    {
        let x = NodeMetric { id: v[i].id.clone(), name: v[i].name.clone(), fan_in: v[i].fan_in, fan_out: v[i].fan_out };
        let mut pos = out.len();
        while pos > 0 && hot_less(&x, &out[pos - 1])
            invariant
                pos <= out@.len(),
                x.fan_in + x.fan_out <= usize::MAX,
                forall|j: int| 0 <= j < out@.len() ==> #[trigger] out@[j].fan_in + out@[j].fan_out <= usize::MAX,
                forall|j: int| pos <= j < out@.len() ==> hot_lt(x@, #[trigger] out@[j]@),
            decreases pos,
        {
            pos -= 1;
        }
        let ghost before = out@;
        proof {
            let sv = metric_views(before);
            assert forall|j: int| pos <= j < sv.len() implies hot_lt(x@, #[trigger] sv[j]) by {
                assert(sv[j] == before[j]@);
            }
            if pos > 0 {
                assert(sv[pos - 1] == before[pos - 1]@);
            }
            lemma_insert_hot_at(sv, x@, pos as int);
            let t = all.take(i + 1);
            assert(t.drop_last() =~= all.take(i as int));
            assert(t.last() == x@);
        }
        out.insert(pos, x);
        assert(metric_views(out@) =~= metric_views(before).insert(pos as int, x@));
        proof {
            assert forall|j: int| 0 <= j < out@.len() implies #[trigger] out@[j].fan_in + out@[j].fan_out <= usize::MAX by {
                if j < pos {
                    assert(out@[j] == before[j]);
                } else if j > pos {
                    assert(out@[j] == before[j - 1]);
                }
            }
        }
        i += 1;
    }
    assert(all.take(v@.len() as int) =~= all);
    if out.len() > 10 {
        out.truncate(10);
        assert(metric_views(out@) =~= sort_hot(all).take(10));
    }
    out
}


fn count_of(map: &KeyMap<usize>, key: &String) -> (r: usize)
    ensures
        r == (if has_key(map@, key@) {
            value_of(map@, key@)
        } else {
            0
        }),
{
    match map.get(key.as_str()) {
        Some(v) => *v,
        None => 0,
    }
}

fn hotspot_list(graph: &Graph, fan_in: &KeyMap<usize>, fan_out: &KeyMap<usize>) -> (r: Vec<NodeMetric>)
    requires
        graph.edges@.len() <= usize::MAX / 2,
        counts_match(fan_in@, |k: Seq<char>| degree(graph.nodes@, graph.edges@, k, true)),
        counts_match(fan_out@, |k: Seq<char>| degree(graph.nodes@, graph.edges@, k, false)),
    ensures
        metric_views(r@) == hotspot_candidates(graph.nodes@, graph.edges@),
        forall|j: int| 0 <= j < r@.len() ==> #[trigger] r@[j].fan_in + r@[j].fan_out <= usize::MAX,
{
    let es = graph.nodes.entries();
    let ghost nodes = graph.nodes@;
    let ghost edges = graph.edges@;
    let ghost pred = |e: (Seq<char>, Node)| is_touched(nodes, edges, e);
    let ghost mk = |e: (Seq<char>, Node)| metric_of(nodes, edges, e);
    let mut out: Vec<NodeMetric> = Vec::new();
    let mut i: usize = 0;
    while i < es.len()
        invariant
            i <= nodes.len(),
            key_view(es@) == nodes,
            nodes == graph.nodes@,
            edges == graph.edges@,
            edges.len() <= usize::MAX / 2,
            pred == (|e: (Seq<char>, Node)| is_touched(nodes, edges, e)),
            mk == (|e: (Seq<char>, Node)| metric_of(nodes, edges, e)),
            counts_match(fan_in@, |k: Seq<char>| degree(nodes, edges, k, true)),
            counts_match(fan_out@, |k: Seq<char>| degree(nodes, edges, k, false)),
            metric_views(out@) == nodes.take(i as int).filter(pred).map_values(mk),
            forall|j: int| 0 <= j < out@.len() ==> #[trigger] out@[j].fan_in + out@[j].fan_out <= usize::MAX,
        decreases es.len() - i,
    {
        proof {
            lemma_key_view_index(es@, i as int);
            let t = nodes.take(i + 1);
            assert(t =~= nodes.take(i as int).push(nodes[i as int]));
            nodes.take(i as int).lemma_filter_push(nodes[i as int], pred);
        }
        let ghost before = out@;
        let fi = count_of(fan_in, &es[i].0);
        let fo = count_of(fan_out, &es[i].0);
        proof {
            let k = nodes[i as int].0;
            lemma_degree_bound(nodes, edges, k, true);
            lemma_degree_bound(nodes, edges, k, false);
            assert(fi == degree(nodes, edges, k, true));
            assert(fo == degree(nodes, edges, k, false));
        }
        let keep = fi + fo > 0;
        assert(keep == pred(nodes[i as int]));
        if keep {
            let m = NodeMetric { id: es[i].0.clone(), name: es[i].1.name.clone(), fan_in: fi, fan_out: fo };
            assert(m@ == mk(nodes[i as int]));
            out.push(m);
            assert(metric_views(out@) =~= metric_views(before).push(mk(nodes[i as int])));
        }
        proof {
            let f = nodes.take(i as int).filter(pred);
            let g = nodes.take(i + 1).filter(pred);
            if keep {
                assert(g == f.push(nodes[i as int]));
                assert(g.map_values(mk) =~= f.map_values(mk).push(mk(nodes[i as int])));
            } else {
                assert(g == f);
            }
            assert forall|j: int| 0 <= j < out@.len() implies #[trigger] out@[j].fan_in + out@[j].fan_out <= usize::MAX by {
                if j < before.len() {
                    assert(out@[j] == before[j]);
                }
            }
        }
        i += 1;
    }
    assert(nodes.take(nodes.len() as int) =~= nodes);
    out
}

/// What holds of the metrics of a graph: exact counts, degrees, layer mix,
/// layer pairs, orphans, components and hotspots; each reported cycle an
/// import cycle, no two of them rotations of each other.
pub open spec fn metrics_of(graph: Graph, r: GraphMetrics) -> bool {
    &&& r.node_count == graph.nodes@.len()
    &&& r.edge_count == graph.edges@.len()
    &&& counts_match(r.fan_in@, |k: Seq<char>| degree(graph.nodes@, graph.edges@, k, true))
    &&& counts_match(r.fan_out@, |k: Seq<char>| degree(graph.nodes@, graph.edges@, k, false))
    &&& counts_match(r.layer_mix@, |l: Seq<char>| layer_size(graph.nodes@, l))
    &&& pair_counts_match(r.layer_edges@, |a: Seq<char>, b: Seq<char>| layer_pair_count(graph.nodes@, graph.edges@, a, b))
    &&& strs_view(r.orphans@) == orphan_ids(graph.nodes@, graph.edges@)
    &&& r.component_count == component_count_of(graph.nodes@, graph.edges@)
    &&& cycles_ok(graph.nodes@, graph.edges@, cycles_view(r.cycles@))
    &&& cycles_view(r.cycles@) == found_cycles(graph.nodes@, graph.edges@)
    &&& metric_views(r.hotspots@) == top_hotspots(graph.nodes@, graph.edges@)
}

/// Computes architectural metrics for a parsed graph: node and edge totals;
/// fan-in, fan-out, layer sizes and layer-to-layer edge counts over the
/// relevant edges (not containment, both ends known nodes); orphan type and
/// entity nodes; the number of connected components among diagram nodes;
/// import cycles; and the ten busiest nodes.
pub fn compute_metrics(graph: &Graph) -> (r: GraphMetrics)
    requires
        graph.edges@.len() <= usize::MAX / 2,
    ensures
        metrics_of(*graph, r),
        r.node_count == graph.nodes@.len(),
        r.edge_count == graph.edges@.len(),
        counts_match(r.fan_in@, |k: Seq<char>| degree(graph.nodes@, graph.edges@, k, true)),
        counts_match(r.fan_out@, |k: Seq<char>| degree(graph.nodes@, graph.edges@, k, false)),
        counts_match(r.layer_mix@, |l: Seq<char>| layer_size(graph.nodes@, l)),
        pair_counts_match(r.layer_edges@, |a: Seq<char>, b: Seq<char>| layer_pair_count(graph.nodes@, graph.edges@, a, b)),
        strs_view(r.orphans@) == orphan_ids(graph.nodes@, graph.edges@),
        r.component_count == component_count_of(graph.nodes@, graph.edges@),
        cycles_ok(graph.nodes@, graph.edges@, cycles_view(r.cycles@)),
        cycles_view(r.cycles@) == found_cycles(graph.nodes@, graph.edges@),
        metric_views(r.hotspots@) == top_hotspots(graph.nodes@, graph.edges@),
{
    let fan_in = degree_map(graph, true);
    let fan_out = degree_map(graph, false);
    let layer_mix = layer_mix_map(graph);
    let layer_edges = layer_edge_map(graph);
    let orphans = orphan_list(graph, &fan_in, &fan_out);
    let component_count = count_components(graph);
    let cycles = find_cycles(graph);
    let candidates = hotspot_list(graph, &fan_in, &fan_out);
    let hotspots = rank_hotspots(candidates);
    GraphMetrics {
        node_count: graph.nodes.len(),
        edge_count: graph.edges.len(),
        component_count,
        cycles,
        hotspots,
        fan_in,
        fan_out,
        layer_mix,
        orphans,
        layer_edges,
    }
}

} // verus!
