//! The JSON rendering of graph metrics.
use crate::keymap::{key_view, lemma_key_view_index, KeyMap};
use crate::metrics::{cycles_view, metric_views, GraphMetrics, NodeMetric, NodeMetricView};
use crate::render::{decimal, json_escape, push_decimal, push_json_escaped};
use crate::text::{push_str, string_of, strs_view};
use vstd::prelude::*;

verus! {

broadcast use vstd::string::group_string_axioms;

/// A string as a quoted, escaped JSON string.
pub open spec fn quoted(s: Seq<char>) -> Seq<char> {
    seq!['"'] + json_escape(s) + seq!['"']
}

/// The separator before the next item of a list that already has `n` items.
pub open spec fn sep(n: nat) -> Seq<char> {
    if n > 0 {
        seq![',']
    } else {
        Seq::empty()
    }
}

/// Ids as comma-separated JSON strings.
pub open spec fn id_items(ids: Seq<Seq<char>>) -> Seq<char>
    decreases ids.len(),
{
    if ids.len() == 0 {
        Seq::empty()
    } else {
        id_items(ids.drop_last()) + sep((ids.len() - 1) as nat) + quoted(ids.last())
    }
}

/// Cycles as comma-separated JSON arrays of ids.
pub open spec fn cycle_items(cycles: Seq<Seq<Seq<char>>>) -> Seq<char>
    decreases cycles.len(),
{
    if cycles.len() == 0 {
        Seq::empty()
    } else {
        cycle_items(cycles.drop_last()) + sep((cycles.len() - 1) as nat) + seq!['['] + id_items(cycles.last())
            + seq![']']
    }
}

/// A hotspot as a JSON object.
pub open spec fn hotspot_json(m: NodeMetricView) -> Seq<char> {
    "{\"id\":"@ + quoted(m.id) + ",\"name\":"@ + quoted(m.name) + ",\"fan_in\":"@ + decimal(m.fan_in)
        + ",\"fan_out\":"@ + decimal(m.fan_out) + "}"@
}

/// Hotspots as comma-separated JSON objects.
pub open spec fn hotspot_items(s: Seq<NodeMetricView>) -> Seq<char>
    decreases s.len(),
{
    if s.len() == 0 {
        Seq::empty()
    } else {
        hotspot_items(s.drop_last()) + sep((s.len() - 1) as nat) + hotspot_json(s.last())
    }
}

/// Counts as comma-separated `"key":count` members of a JSON object.
pub open spec fn count_items(s: Seq<(Seq<char>, usize)>) -> Seq<char>
    decreases s.len(),
{
    if s.len() == 0 {
        Seq::empty()
    } else {
        count_items(s.drop_last()) + sep((s.len() - 1) as nat) + quoted(s.last().0) + seq![':'] + decimal(
            s.last().1 as nat,
        )
    }
}

/// The (source layer, target layer, count) triples of a map of count maps,
/// in key order.
pub open spec fn layer_pairs(s: Seq<(Seq<char>, KeyMap<usize>)>) -> Seq<(Seq<char>, Seq<char>, usize)>
    decreases s.len(),
{
    if s.len() == 0 {
        Seq::empty()
    } else {
        layer_pairs(s.drop_last()) + s.last().1@.map_values(|e: (Seq<char>, usize)| (s.last().0, e.0, e.1))
    }
}

/// A layer pair count as a JSON object.
pub open spec fn pair_json(t: (Seq<char>, Seq<char>, usize)) -> Seq<char> {
    "{\"from\":"@ + quoted(t.0) + ",\"to\":"@ + quoted(t.1) + ",\"count\":"@ + decimal(t.2 as nat) + "}"@
}

/// Layer pair counts as comma-separated JSON objects.
pub open spec fn pair_items(s: Seq<(Seq<char>, Seq<char>, usize)>) -> Seq<char>
    decreases s.len(),
{
    if s.len() == 0 {
        Seq::empty()
    } else {
        pair_items(s.drop_last()) + sep((s.len() - 1) as nat) + pair_json(s.last())
    }
}

/// The whole metrics record as a JSON document.
pub open spec fn metrics_json(m: GraphMetrics) -> Seq<char> {
    "{\"node_count\":"@ + decimal(m.node_count as nat) + ",\"edge_count\":"@ + decimal(m.edge_count as nat)
        + ",\"component_count\":"@ + decimal(m.component_count as nat) + ",\"cycles\":["@ + cycle_items(
        cycles_view(m.cycles@),
    ) + "],\"hotspots\":["@ + hotspot_items(metric_views(m.hotspots@)) + "],\"layer_mix\":{"@ + count_items(
        m.layer_mix@,
    ) + "},\"layer_edges\":["@ + pair_items(layer_pairs(m.layer_edges@)) + "],\"orphans\":["@ + id_items(
        strs_view(m.orphans@),
    ) + "]}"@
}

fn push_quoted(out: &mut Vec<char>, s: &str)
    ensures
        final(out)@ == old(out)@ + quoted(s@),
{
    let ghost start = out@;
    out.push('"');
    push_json_escaped(out, s);
    out.push('"');
    assert(out@ =~= start + quoted(s@));
}

fn push_id_items(out: &mut Vec<char>, ids: &Vec<String>)
    ensures
        final(out)@ == old(out)@ + id_items(strs_view(ids@)),
{
    let ghost start = out@;
    let ghost all = strs_view(ids@);
    let mut i: usize = 0;
    while i < ids.len()
        invariant
            i <= ids@.len(),
            all == strs_view(ids@),
            out@ == start + id_items(all.take(i as int)),
        decreases ids.len() - i,
    {
        let ghost before = out@;
        if i > 0 {
            out.push(',');
        }
        push_quoted(out, ids[i].as_str());
        proof {
            let t = all.take(i + 1);
            assert(t.drop_last() =~= all.take(i as int));
            assert(t.last() == ids@[i as int]@);
            assert(out@ =~= before + sep(i as nat) + quoted(ids@[i as int]@));
        }
        i += 1;
    }
    assert(all.take(ids@.len() as int) =~= all);
}

fn push_cycle_items(out: &mut Vec<char>, cycles: &Vec<Vec<String>>)
    ensures
        final(out)@ == old(out)@ + cycle_items(cycles_view(cycles@)),
{
    let ghost start = out@;
    let ghost all = cycles_view(cycles@);
    let mut i: usize = 0;
    while i < cycles.len()
        invariant
            i <= cycles@.len(),
            all == cycles_view(cycles@),
            out@ == start + cycle_items(all.take(i as int)),
        decreases cycles.len() - i,
    {
        let ghost before = out@;
        if i > 0 {
            out.push(',');
        }
        out.push('[');
        push_id_items(out, &cycles[i]);
        out.push(']');
        proof {
            let t = all.take(i + 1);
            assert(t.drop_last() =~= all.take(i as int));
            assert(t.last() == strs_view(cycles@[i as int]@));
            assert(out@ =~= before + sep(i as nat) + seq!['['] + id_items(strs_view(cycles@[i as int]@)) + seq![']']);
        }
        i += 1;
    }
    assert(all.take(cycles@.len() as int) =~= all);
}

fn push_hotspot(out: &mut Vec<char>, m: &NodeMetric)
    ensures
        final(out)@ == old(out)@ + hotspot_json(m@),
{
    let ghost start = out@;
    push_str(out, "{\"id\":");
    push_quoted(out, m.id.as_str());
    push_str(out, ",\"name\":");
    push_quoted(out, m.name.as_str());
    push_str(out, ",\"fan_in\":");
    push_decimal(out, m.fan_in);
    push_str(out, ",\"fan_out\":");
    push_decimal(out, m.fan_out);
    push_str(out, "}");
    assert(out@ =~= start + hotspot_json(m@));
}

fn push_hotspot_items(out: &mut Vec<char>, list: &Vec<NodeMetric>)
    ensures
        final(out)@ == old(out)@ + hotspot_items(metric_views(list@)),
{
    let ghost start = out@;
    let ghost all = metric_views(list@);
    let mut i: usize = 0;
    while i < list.len()
        invariant
            i <= list@.len(),
            all == metric_views(list@),
            out@ == start + hotspot_items(all.take(i as int)),
        decreases list.len() - i,
    {
        let ghost before = out@;
        if i > 0 {
            out.push(',');
        }
        push_hotspot(out, &list[i]);
        proof {
            let t = all.take(i + 1);
            assert(t.drop_last() =~= all.take(i as int));
            assert(t.last() == list@[i as int]@);
            assert(out@ =~= before + sep(i as nat) + hotspot_json(list@[i as int]@));
        }
        i += 1;
    }
    assert(all.take(list@.len() as int) =~= all);
}

fn push_count_items(out: &mut Vec<char>, map: &KeyMap<usize>)
    ensures
        final(out)@ == old(out)@ + count_items(map@),
{
    let ghost start = out@;
    let es = map.entries();
    let mut i: usize = 0;
    while i < es.len()
        invariant
            i <= es@.len(),
            key_view(es@) == map@,
            out@ == start + count_items(map@.take(i as int)),
        decreases es.len() - i,
    {
        let ghost before = out@;
        if i > 0 {
            out.push(',');
        }
        push_quoted(out, es[i].0.as_str());
        out.push(':');
        push_decimal(out, es[i].1);
        proof {
            lemma_key_view_index(es@, i as int);
            let t = map@.take(i + 1);
            assert(t.drop_last() =~= map@.take(i as int));
            assert(t.last() == (es@[i as int].0@, es@[i as int].1));
            assert(out@ =~= before + sep(i as nat) + quoted(es@[i as int].0@) + seq![':'] + decimal(es@[i as int].1 as nat));
        }
        i += 1;
    }
    assert(map@.take(es@.len() as int) =~= map@);
}

fn push_pair(out: &mut Vec<char>, from: &str, to: &str, count: usize)
    ensures
        final(out)@ == old(out)@ + pair_json((from@, to@, count)),
{
    let ghost start = out@;
    push_str(out, "{\"from\":");
    push_quoted(out, from);
    push_str(out, ",\"to\":");
    push_quoted(out, to);
    push_str(out, ",\"count\":");
    push_decimal(out, count);
    push_str(out, "}");
    assert(out@ =~= start + pair_json((from@, to@, count)));
}

proof fn lemma_pair_step(done: Seq<(Seq<char>, Seq<char>, usize)>, inner: Seq<(Seq<char>, usize)>, f: Seq<char>, j: int)
    requires
        0 <= j < inner.len(),
    ensures
        pair_items(done + inner.take(j + 1).map_values(|e: (Seq<char>, usize)| (f, e.0, e.1))) == pair_items(
            done + inner.take(j).map_values(|e: (Seq<char>, usize)| (f, e.0, e.1)),
        ) + sep((done.len() + j) as nat) + pair_json((f, inner[j].0, inner[j].1)),
{
    let x = (f, inner[j].0, inner[j].1);
    let a = done + inner.take(j).map_values(|e: (Seq<char>, usize)| (f, e.0, e.1));
    let b = done + inner.take(j + 1).map_values(|e: (Seq<char>, usize)| (f, e.0, e.1));
    assert(b =~= a.push(x));
    assert(b.drop_last() =~= a);
}

fn push_pair_items(out: &mut Vec<char>, map: &KeyMap<KeyMap<usize>>)
    ensures
        final(out)@ == old(out)@ + pair_items(layer_pairs(map@)),
{
    let ghost start = out@;
    let es = map.entries();
    let mut any = false;
    let mut i: usize = 0;
    while i < es.len()
        invariant
            i <= es@.len(),
            key_view(es@) == map@,
            any == (layer_pairs(map@.take(i as int)).len() > 0),
            out@ == start + pair_items(layer_pairs(map@.take(i as int))),
        decreases es.len() - i,
    {
        proof {
            lemma_key_view_index(es@, i as int);
        }
        let from = &es[i].0;
        let inner = es[i].1.entries();
        let ghost done = layer_pairs(map@.take(i as int));
        let ghost f = from@;
        let ghost inner_view = es@[i as int].1@;
        let mut j: usize = 0;
        while j < inner.len()
            invariant
                j <= inner@.len(),
                key_view(inner@) == inner_view,
                f == from@,
                any == (done.len() + j > 0),
                out@ == start + pair_items(done + inner_view.take(j as int).map_values(|e: (Seq<char>, usize)| (f, e.0, e.1))),
            decreases inner.len() - j,
        {
            let ghost before = out@;
            proof {
                lemma_key_view_index(inner@, j as int);
                lemma_pair_step(done, inner_view, f, j as int);
            }
            if any {
                out.push(',');
            }
            push_pair(out, from.as_str(), inner[j].0.as_str(), inner[j].1);
            assert(out@ =~= before + sep((done.len() + j) as nat) + pair_json((f, inner_view[j as int].0, inner_view[j as int].1)));
            any = true;
            j += 1;
        }
        proof {
            let t = map@.take(i + 1);
            assert(t.drop_last() =~= map@.take(i as int));
            assert(t.last().0 == f && t.last().1@ == inner_view);
            assert(inner_view.take(inner@.len() as int) =~= inner_view);
        }
        i += 1;
    }
    assert(map@.take(es@.len() as int) =~= map@);
}

/// Renders metrics as deterministic JSON: totals, cycles, hotspots, layer
/// sizes (in layer order), layer-to-layer counts (in pair order) and orphans.
pub fn metrics_to_json(metrics: &GraphMetrics) -> (r: String)
    ensures
        r@ == metrics_json(*metrics),
{
    let mut out: Vec<char> = Vec::new();
    push_str(&mut out, "{\"node_count\":");
    push_decimal(&mut out, metrics.node_count);
    push_str(&mut out, ",\"edge_count\":");
    push_decimal(&mut out, metrics.edge_count);
    push_str(&mut out, ",\"component_count\":");
    push_decimal(&mut out, metrics.component_count);
    push_str(&mut out, ",\"cycles\":[");
    push_cycle_items(&mut out, &metrics.cycles);
    push_str(&mut out, "],\"hotspots\":[");
    push_hotspot_items(&mut out, &metrics.hotspots);
    push_str(&mut out, "],\"layer_mix\":{");
    push_count_items(&mut out, &metrics.layer_mix);
    push_str(&mut out, "},\"layer_edges\":[");
    push_pair_items(&mut out, &metrics.layer_edges);
    push_str(&mut out, "],\"orphans\":[");
    push_id_items(&mut out, &metrics.orphans);
    push_str(&mut out, "]}");
    assert(out@ =~= metrics_json(*metrics));
    string_of(out.as_slice())
}

} // verus!
