//! The plain-text report of graph metrics that `apex metrics` prints.
use crate::keymap::{key_view, lemma_key_view_index, KeyMap};
use crate::metrics::{cycles_view, metric_views, GraphMetrics, NodeMetric, NodeMetricView};
use crate::metrics_json::layer_pairs;
use crate::render::{decimal, push_decimal};
use crate::text::{push_str, string_of, strs_view};
use vstd::prelude::*;

verus! {

broadcast use vstd::string::group_string_axioms;

/// `s` padded with spaces on the right to `w` characters (`{:<w}`).
pub open spec fn pad(s: Seq<char>, w: nat) -> Seq<char> {
    if s.len() < w {
        s + Seq::new((w - s.len()) as nat, |i: int| ' ')
    } else {
        s
    }
}

fn push_padded(out: &mut Vec<char>, s: &str, w: usize)
    ensures
        final(out)@ == old(out)@ + pad(s@, w as nat),
{
    let v = crate::text::chars_of(s);
    crate::text::push_all(out, v.as_slice());
    let ghost mid = out@;
    let mut k: usize = v.len();
    while k < w
        invariant
            v@.len() <= k <= w || (w < v@.len() && k == v@.len()),
            out@ == mid + Seq::new((k - v@.len()) as nat, |i: int| ' '),
        decreases w - k,
    {
        out.push(' ');
        k += 1;
        assert(out@ =~= mid + Seq::new((k - v@.len()) as nat, |i: int| ' '));
    }
    if v.len() < w {
        assert(k == w);
    } else {
        assert(out@ =~= mid);
    }
    assert(final(out)@ =~= old(out)@ + pad(s@, w as nat));
}

/// The lines of the layer mix: layer padded to 16, then its count.
pub open spec fn layer_lines(s: Seq<(Seq<char>, usize)>) -> Seq<char>
    decreases s.len(),
{
    if s.len() == 0 {
        Seq::empty()
    } else {
        layer_lines(s.drop_last()) + "  "@ + pad(s.last().0, 16) + " "@ + decimal(s.last().1 as nat) + "\n"@
    }
}

/// The lines of the layer-to-layer counts.
pub open spec fn pair_lines(s: Seq<(Seq<char>, Seq<char>, usize)>) -> Seq<char>
    decreases s.len(),
{
    if s.len() == 0 {
        Seq::empty()
    } else {
        pair_lines(s.drop_last()) + "  "@ + s.last().0 + " -> "@ + s.last().1 + "  ("@ + decimal(s.last().2 as nat)
            + ")\n"@
    }
}

/// The lines of the hotspots: name padded to 32, fan-in, fan-out.
pub open spec fn hotspot_lines(s: Seq<NodeMetricView>) -> Seq<char>
    decreases s.len(),
{
    if s.len() == 0 {
        Seq::empty()
    } else {
        hotspot_lines(s.drop_last()) + "  "@ + pad(s.last().name, 32) + " in="@ + decimal(s.last().fan_in) + " out="@
            + decimal(s.last().fan_out) + "\n"@
    }
}

/// Ids joined by ` -> `.
pub open spec fn arrow_joined(ids: Seq<Seq<char>>) -> Seq<char>
    decreases ids.len(),
{
    if ids.len() == 0 {
        Seq::empty()
    } else {
        arrow_joined(ids.drop_last()) + (if ids.len() > 1 { " -> "@ } else { Seq::empty() }) + ids.last()
    }
}

/// The numbered lines of the cycles.
pub open spec fn cycle_lines(cs: Seq<Seq<Seq<char>>>) -> Seq<char>
    decreases cs.len(),
{
    if cs.len() == 0 {
        Seq::empty()
    } else {
        cycle_lines(cs.drop_last()) + "  "@ + decimal(cs.len()) + ". "@ + arrow_joined(cs.last()) + "\n"@
    }
}

/// The lines of the listed orphans.
pub open spec fn id_lines(ids: Seq<Seq<char>>) -> Seq<char>
    decreases ids.len(),
{
    if ids.len() == 0 {
        Seq::empty()
    } else {
        id_lines(ids.drop_last()) + "  "@ + ids.last() + "\n"@
    }
}

/// The totals at the head of the report.
pub open spec fn totals_section(m: GraphMetrics) -> Seq<char> {
    "nodes:      "@ + decimal(m.node_count as nat) + "\n"@ + "edges:      "@ + decimal(m.edge_count as nat) + "\n"@
        + "components: "@ + decimal(m.component_count as nat) + "\n"@ + "cycles:     "@ + decimal(m.cycles@.len())
        + "\n"@
}

/// The layer mix section, when there are layers.
pub open spec fn layers_section(m: GraphMetrics) -> Seq<char> {
    if m.layer_mix@.len() > 0 {
        "\nlayers:\n"@ + layer_lines(m.layer_mix@)
    } else {
        Seq::empty()
    }
}

/// The layer edges section, when there are layer pairs.
pub open spec fn pairs_section(m: GraphMetrics) -> Seq<char> {
    if layer_pairs(m.layer_edges@).len() > 0 {
        "\nlayer edges:\n"@ + pair_lines(layer_pairs(m.layer_edges@))
    } else {
        Seq::empty()
    }
}

/// The hotspots section, when there are hotspots.
pub open spec fn hotspots_section(m: GraphMetrics) -> Seq<char> {
    if m.hotspots@.len() > 0 {
        "\nhotspots (fan_in / fan_out):\n"@ + hotspot_lines(metric_views(m.hotspots@))
    } else {
        Seq::empty()
    }
}

/// The cycles section, when there are cycles.
pub open spec fn cycles_section(m: GraphMetrics) -> Seq<char> {
    if m.cycles@.len() > 0 {
        "\nimport cycles:\n"@ + cycle_lines(cycles_view(m.cycles@))
    } else {
        Seq::empty()
    }
}

/// The orphans section, when there are orphans: their number, then at most
/// twenty of them.
pub open spec fn orphans_section(m: GraphMetrics) -> Seq<char> {
    let orphans = strs_view(m.orphans@);
    if orphans.len() > 0 {
        "\norphans (disconnected types): "@ + decimal(orphans.len()) + "\n"@ + id_lines(
            orphans.take(if orphans.len() < 20 { orphans.len() as int } else { 20 }),
        )
    } else {
        Seq::empty()
    }
}

/// The text report: totals, then the layer mix, layer edges, hotspots,
/// cycles and orphans (at most twenty listed), each section only when it has
/// entries.
pub open spec fn metrics_report(m: GraphMetrics) -> Seq<char> {
    totals_section(m) + layers_section(m) + pairs_section(m) + hotspots_section(m) + cycles_section(m) + orphans_section(m)
}

/// Pair views of a flat list of layer pairs.
pub open spec fn triples_view(s: Seq<(String, String, usize)>) -> Seq<(Seq<char>, Seq<char>, usize)> {
    s.map_values(|t: (String, String, usize)| (t.0@, t.1@, t.2))
}

proof fn lemma_pairs_take(map: Seq<(Seq<char>, KeyMap<usize>)>, i: int)
    requires
        0 <= i < map.len(),
    ensures
        layer_pairs(map.take(i + 1)) == layer_pairs(map.take(i)) + map[i].1@.map_values(
            |e: (Seq<char>, usize)| (map[i].0, e.0, e.1),
        ),
{
    let t = map.take(i + 1);
    assert(t.drop_last() =~= map.take(i));
    assert(t.last() == map[i]);
}

/// The layer pairs of a map of count maps, flattened in key order.
fn flat_pairs(map: &KeyMap<KeyMap<usize>>) -> (r: Vec<(String, String, usize)>)
    ensures
        triples_view(r@) == layer_pairs(map@),
{
    let es = map.entries();
    let mut out: Vec<(String, String, usize)> = Vec::new();
    let mut i: usize = 0;
    assert(map@.take(0) =~= Seq::<(Seq<char>, KeyMap<usize>)>::empty());
    while i < es.len()
        invariant
            i <= es@.len(),
            key_view(es@) == map@,
            triples_view(out@) == layer_pairs(map@.take(i as int)),
        decreases es.len() - i,
    {
        proof {
            lemma_key_view_index(es@, i as int);
            lemma_pairs_take(map@, i as int);
        }
        let inner = es[i].1.entries();
        let ghost done = triples_view(out@);
        let ghost f = es@[i as int].0@;
        let ghost iv = es@[i as int].1@;
        let mut j: usize = 0;
        assert(iv.take(0).map_values(|e: (Seq<char>, usize)| (f, e.0, e.1)) =~= Seq::<(Seq<char>, Seq<char>, usize)>::empty());
        while j < inner.len()
            invariant
                j <= inner@.len(),
                key_view(inner@) == iv,
                f == es@[i as int].0@,
                i < es@.len(),
                triples_view(out@) == done + iv.take(j as int).map_values(|e: (Seq<char>, usize)| (f, e.0, e.1)),
            decreases inner.len() - j,
        {
            proof {
                lemma_key_view_index(inner@, j as int);
            }
            let ghost before = triples_view(out@);
            let t = (es[i].0.clone(), inner[j].0.clone(), inner[j].1);
            out.push(t);
            assert(triples_view(out@) =~= before.push((f, iv[j as int].0, iv[j as int].1)));
            assert(iv.take(j + 1).map_values(|e: (Seq<char>, usize)| (f, e.0, e.1)) =~= iv.take(j as int).map_values(
                |e: (Seq<char>, usize)| (f, e.0, e.1),
            ).push((f, iv[j as int].0, iv[j as int].1)));
            j += 1;
        }
        assert(iv.take(inner@.len() as int) =~= iv);
        assert(map@[i as int].0 == f && map@[i as int].1@ == iv);
        i += 1;
    }
    assert(map@.take(es@.len() as int) =~= map@);
    out
}

fn push_layer_lines(out: &mut Vec<char>, map: &KeyMap<usize>)
    ensures
        final(out)@ == old(out)@ + layer_lines(map@),
{
    let ghost start = out@;
    let es = map.entries();
    let mut i: usize = 0;
    while i < es.len()
        invariant
            i <= es@.len(),
            key_view(es@) == map@,
            out@ == start + layer_lines(map@.take(i as int)),
        decreases es.len() - i,
    {
        let ghost before = out@;
        push_str(out, "  ");
        push_padded(out, es[i].0.as_str(), 16);
        push_str(out, " ");
        push_decimal(out, es[i].1);
        push_str(out, "\n");
        proof {
            lemma_key_view_index(es@, i as int);
            let t = map@.take(i + 1);
            assert(t.drop_last() =~= map@.take(i as int));
            assert(t.last() == (es@[i as int].0@, es@[i as int].1));
        }
        assert(out@ =~= start + layer_lines(map@.take(i + 1)));
        i += 1;
    }
    assert(map@.take(es@.len() as int) =~= map@);
}

fn push_pair_lines(out: &mut Vec<char>, pairs: &Vec<(String, String, usize)>)
    ensures
        final(out)@ == old(out)@ + pair_lines(triples_view(pairs@)),
{
    let ghost start = out@;
    let ghost all = triples_view(pairs@);
    let mut i: usize = 0;
    while i < pairs.len()
        invariant
            i <= pairs@.len(),
            all == triples_view(pairs@),
            out@ == start + pair_lines(all.take(i as int)),
        decreases pairs.len() - i,
    {
        push_str(out, "  ");
        push_str(out, pairs[i].0.as_str());
        push_str(out, " -> ");
        push_str(out, pairs[i].1.as_str());
        push_str(out, "  (");
        push_decimal(out, pairs[i].2);
        push_str(out, ")\n");
        proof {
            let t = all.take(i + 1);
            assert(t.drop_last() =~= all.take(i as int));
            assert(t.last() == all[i as int]);
        }
        assert(out@ =~= start + pair_lines(all.take(i + 1)));
        i += 1;
    }
    assert(all.take(pairs@.len() as int) =~= all);
}

fn push_hotspot_lines(out: &mut Vec<char>, list: &Vec<NodeMetric>)
    ensures
        final(out)@ == old(out)@ + hotspot_lines(metric_views(list@)),
{
    let ghost start = out@;
    let ghost all = metric_views(list@);
    let mut i: usize = 0;
    while i < list.len()
        invariant
            i <= list@.len(),
            all == metric_views(list@),
            out@ == start + hotspot_lines(all.take(i as int)),
        decreases list.len() - i,
    {
        push_str(out, "  ");
        push_padded(out, list[i].name.as_str(), 32);
        push_str(out, " in=");
        push_decimal(out, list[i].fan_in);
        push_str(out, " out=");
        push_decimal(out, list[i].fan_out);
        push_str(out, "\n");
        proof {
            let t = all.take(i + 1);
            assert(t.drop_last() =~= all.take(i as int));
            assert(t.last() == list@[i as int]@);
        }
        assert(out@ =~= start + hotspot_lines(all.take(i + 1)));
        i += 1;
    }
    assert(all.take(list@.len() as int) =~= all);
}

fn push_arrow_joined(out: &mut Vec<char>, ids: &Vec<String>)
    ensures
        final(out)@ == old(out)@ + arrow_joined(strs_view(ids@)),
{
    let ghost start = out@;
    let ghost all = strs_view(ids@);
    let mut i: usize = 0;
    while i < ids.len()
        invariant
            i <= ids@.len(),
            all == strs_view(ids@),
            out@ == start + arrow_joined(all.take(i as int)),
        decreases ids.len() - i,
    {
        if i > 0 {
            push_str(out, " -> ");
        }
        push_str(out, ids[i].as_str());
        proof {
            let t = all.take(i + 1);
            assert(t.drop_last() =~= all.take(i as int));
            assert(t.last() == ids@[i as int]@);
        }
        assert(out@ =~= start + arrow_joined(all.take(i + 1)));
        i += 1;
    }
    assert(all.take(ids@.len() as int) =~= all);
}

fn push_cycle_lines(out: &mut Vec<char>, cycles: &Vec<Vec<String>>)
    ensures
        final(out)@ == old(out)@ + cycle_lines(cycles_view(cycles@)),
{
    let ghost start = out@;
    let ghost all = cycles_view(cycles@);
    let mut i: usize = 0;
    while i < cycles.len()
        invariant
            i <= cycles@.len(),
            all == cycles_view(cycles@),
            out@ == start + cycle_lines(all.take(i as int)),
        decreases cycles.len() - i,
    {
        push_str(out, "  ");
        push_decimal(out, i + 1);
        push_str(out, ". ");
        push_arrow_joined(out, &cycles[i]);
        push_str(out, "\n");
        proof {
            let t = all.take(i + 1);
            assert(t.drop_last() =~= all.take(i as int));
            assert(t.last() == strs_view(cycles@[i as int]@));
            assert(t.len() == i + 1);
        }
        assert(out@ =~= start + cycle_lines(all.take(i + 1)));
        i += 1;
    }
    assert(all.take(cycles@.len() as int) =~= all);
}

fn push_id_lines(out: &mut Vec<char>, ids: &Vec<String>, n: usize)
    requires
        n <= ids@.len(),
    ensures
        final(out)@ == old(out)@ + id_lines(strs_view(ids@).take(n as int)),
{
    let ghost start = out@;
    let ghost all = strs_view(ids@);
    let mut i: usize = 0;
    while i < n
        invariant
            i <= n <= ids@.len(),
            all == strs_view(ids@),
            out@ == start + id_lines(all.take(i as int)),
        decreases n - i,
    {
        push_str(out, "  ");
        push_str(out, ids[i].as_str());
        push_str(out, "\n");
        proof {
            let t = all.take(i + 1);
            assert(t.drop_last() =~= all.take(i as int));
            assert(t.last() == ids@[i as int]@);
        }
        assert(out@ =~= start + id_lines(all.take(i + 1)));
        i += 1;
    }
}

fn push_totals(out: &mut Vec<char>, m: &GraphMetrics)
    ensures
        final(out)@ == old(out)@ + totals_section(*m),
{
    push_str(out, "nodes:      ");
    push_decimal(out, m.node_count);
    push_str(out, "\n");
    push_str(out, "edges:      ");
    push_decimal(out, m.edge_count);
    push_str(out, "\n");
    push_str(out, "components: ");
    push_decimal(out, m.component_count);
    push_str(out, "\n");
    push_str(out, "cycles:     ");
    push_decimal(out, m.cycles.len());
    push_str(out, "\n");
    assert(final(out)@ =~= old(out)@ + totals_section(*m));
}

fn push_layers(out: &mut Vec<char>, m: &GraphMetrics)
    ensures
        final(out)@ == old(out)@ + layers_section(*m),
{
    if m.layer_mix.len() > 0 {
        push_str(out, "\nlayers:\n");
        push_layer_lines(out, &m.layer_mix);
        assert(final(out)@ =~= old(out)@ + layers_section(*m));
    } else {
        assert(final(out)@ =~= old(out)@ + layers_section(*m));
    }
}

fn push_pairs(out: &mut Vec<char>, m: &GraphMetrics)
    ensures
        final(out)@ == old(out)@ + pairs_section(*m),
{
    let pairs = flat_pairs(&m.layer_edges);
    if pairs.len() > 0 {
        push_str(out, "\nlayer edges:\n");
        push_pair_lines(out, &pairs);
        assert(final(out)@ =~= old(out)@ + pairs_section(*m));
    } else {
        assert(final(out)@ =~= old(out)@ + pairs_section(*m));
    }
}

fn push_hotspots(out: &mut Vec<char>, m: &GraphMetrics)
    ensures
        final(out)@ == old(out)@ + hotspots_section(*m),
{
    if m.hotspots.len() > 0 {
        push_str(out, "\nhotspots (fan_in / fan_out):\n");
        push_hotspot_lines(out, &m.hotspots);
        assert(final(out)@ =~= old(out)@ + hotspots_section(*m));
    } else {
        assert(final(out)@ =~= old(out)@ + hotspots_section(*m));
    }
}

fn push_cycles(out: &mut Vec<char>, m: &GraphMetrics)
    ensures
        final(out)@ == old(out)@ + cycles_section(*m),
{
    if m.cycles.len() > 0 {
        push_str(out, "\nimport cycles:\n");
        push_cycle_lines(out, &m.cycles);
        assert(final(out)@ =~= old(out)@ + cycles_section(*m));
    } else {
        assert(final(out)@ =~= old(out)@ + cycles_section(*m));
    }
}

fn push_orphans(out: &mut Vec<char>, m: &GraphMetrics)
    ensures
        final(out)@ == old(out)@ + orphans_section(*m),
{
    if m.orphans.len() > 0 {
        push_str(out, "\norphans (disconnected types): ");
        push_decimal(out, m.orphans.len());
        push_str(out, "\n");
        let n = if m.orphans.len() < 20 { m.orphans.len() } else { 20 };
        push_id_lines(out, &m.orphans, n);
        assert(final(out)@ =~= old(out)@ + orphans_section(*m));
    } else {
        assert(final(out)@ =~= old(out)@ + orphans_section(*m));
    }
}

/// Renders metrics as the text report of `apex metrics`.
pub fn metrics_text(m: &GraphMetrics) -> (r: String)
    ensures
        r@ == metrics_report(*m),
{
    let mut out: Vec<char> = Vec::new();
    push_totals(&mut out, m);
    push_layers(&mut out, m);
    push_pairs(&mut out, m);
    push_hotspots(&mut out, m);
    push_cycles(&mut out, m);
    push_orphans(&mut out, m);
    assert(out@ =~= metrics_report(*m));
    string_of(out.as_slice())
}

} // verus!
