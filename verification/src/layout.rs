//! Deterministic node placement for diagrams.
use crate::graph::Graph;
use crate::keymap::{key_view, lemma_key_view_index, sorted_keys, KeyMap};
use crate::model::Node;
use vstd::prelude::*;

verus! {

/// The grid position of the `i`-th node in id order: four columns 180 apart,
/// rows 110 apart, with a margin of 40.
pub open spec fn grid_position(i: int) -> (usize, usize) {
    ((40 + (i % 4) * 180) as usize, (40 + (i / 4) * 110) as usize)
}

/// Returns a deterministic layered layout for the graph: every node, in id
/// order, placed on a four-column grid.
pub fn layered_layout(graph: &Graph) -> (r: KeyMap<(usize, usize)>)
    requires
        graph.nodes@.len() <= usize::MAX / 128,
    ensures
        r@.len() == graph.nodes@.len(),
        forall|i: int|
            0 <= i < r@.len() ==> #[trigger] r@[i] == (graph.nodes@[i].0, grid_position(i)),
{
    let es = graph.nodes.entries();
    let mut out: KeyMap<(usize, usize)> = KeyMap::new();
    let mut i: usize = 0;
    while i < es.len()
        invariant
            key_view(es@) == graph.nodes@,
            sorted_keys(graph.nodes@),
            es@.len() <= usize::MAX / 128,
            i <= es@.len(),
            out@.len() == i,
            forall|j: int| 0 <= j < i ==> #[trigger] out@[j] == (graph.nodes@[j].0, grid_position(j)),
        decreases es.len() - i,
    {
        proof {
            lemma_key_view_index(es@, i as int);
            if i > 0 {
                assert(crate::text::seq_lt(graph.nodes@[i - 1].0, graph.nodes@[i as int].0));
            }
        }
        let x = 40 + (i % 4) * 180;
        let y = 40 + (i / 4) * 110;
        out.push_last(es[i].0.clone(), (x, y));
        i += 1;
    }
    out
}

/// Computes deterministic coordinates for diagram rendering.
pub fn layout(graph: &Graph) -> (r: KeyMap<(usize, usize)>)
    requires
        graph.nodes@.len() <= usize::MAX / 128,
    ensures
        r@.len() == graph.nodes@.len(),
        forall|i: int|
            0 <= i < r@.len() ==> #[trigger] r@[i] == (graph.nodes@[i].0, grid_position(i)),
{
    layered_layout(graph)
}

} // verus!
