use vstd::prelude::*;

use crate::error::VestoError;
use crate::flat::{lemma_score_ids_props, score_ids, to_query};
use crate::hnsw::{
    BeamState, LayersView, beam_ended, beam_outcome, beam_run, beam_start, beam_visit, closest_scan, descend, distinct_ids,
    distinct_scored, dist_to, extend_with, extended_ids, from_query, graph_wf, heuristic_scan, ids_seq, insert_spec, lemma_extended_origin,
    lemma_max_index_props, lemma_min_index_props, lemma_swap_out_distinct, link_back, link_down, max_index, min_index, nearest_from,
    nearest_scan, neighbours, neighbours_of_all, raise, refill, select_spec, swap_out, worst_of, heuristic_select, scored_right,
};
use crate::laws::lemma_scan_shape;
use crate::kernel::kernel_value;
use crate::metrics::{MetricsName, float_lt, is_nan, total_key};
use crate::ranking::{
    Scored, lemma_stable_sort_len, lemma_stable_sort_multiset, lemma_stable_sort_sorted, lemma_top_k_props, stable_sort_by_score,
    top_k_by_score,
};
use crate::types::EntityId;

verus! {

/// Every scored entry's id is in `sv`.
pub open spec fn scored_in(s: Seq<Scored>, sv: Set<u64>) -> bool {
    forall|i: int| 0 <= i < s.len() ==> sv.contains((#[trigger] s[i]).1.0)
}

/// Every id is in `sv`.
pub open spec fn ids_in(s: Seq<EntityId>, sv: Set<u64>) -> bool {
    forall|i: int| 0 <= i < s.len() ==> sv.contains((#[trigger] s[i]).0)
}

/// Every id that layer `l` lists as a neighbour is in `sv`.
pub open spec fn layer_in(layers: LayersView, l: int, sv: Set<u64>) -> bool {
    forall|k: u64, i: int| layers[l].contains_key(k) && 0 <= i < layers[l][k].len() ==> sv.contains((#[trigger] layers[l][k][i]).0)
}

/// Every node and every neighbour on every layer is in `sv`.
pub open spec fn refs_in(layers: LayersView, sv: Set<u64>) -> bool {
    &&& forall|l: int, k: u64| 0 <= l < layers.len() && #[trigger] layers[l].contains_key(k) ==> sv.contains(k)
    &&& forall|l: int| 0 <= l < layers.len() ==> #[trigger] layer_in(layers, l, sv)
}

/// Every node of `a` is a node of `b` on the same layer.
pub open spec fn keys_grow(a: LayersView, b: LayersView) -> bool {
    &&& a.len() == b.len()
    &&& forall|l: int, k: u64| 0 <= l < a.len() && #[trigger] a[l].contains_key(k) ==> b[l].contains_key(k)
}

proof fn lemma_neighbours_in(layers: LayersView, l: int, c: u64, sv: Set<u64>)
    requires
        layer_in(layers, l, sv),
    ensures
        ids_in(neighbours(layers, l, c), sv),
{
    if layers[l].contains_key(c) {
        assert forall|i: int| 0 <= i < neighbours(layers, l, c).len() implies sv.contains((#[trigger] neighbours(layers, l, c)[i]).0) by {
            assert(layers[l][c][i] == neighbours(layers, l, c)[i]);
        }
    }
}

proof fn lemma_swap_out_in(s: Seq<Scored>, i: int, sv: Set<u64>)
    requires
        0 <= i < s.len(),
        scored_in(s, sv),
    ensures
        scored_in(swap_out(s, i), sv),
{
    let t = swap_out(s, i);
    assert forall|j: int| 0 <= j < t.len() implies sv.contains((#[trigger] t[j]).1.0) by {
        if j == i {
            assert(t[j] == s[s.len() - 1]);
        } else {
            assert(t[j] == s[j]);
        }
    }
}

proof fn lemma_beam_start_in<K: Fn(MetricsName, &[u32], &[u32]) -> Result<u32, VestoError>>(
    kernel: K,
    m: MetricsName,
    contents: Map<u64, Seq<u32>>,
    query: Seq<u32>,
    ep: Seq<EntityId>,
    n: int,
    sv: Set<u64>,
)
    requires
        n <= ep.len(),
        ids_in(ep, sv),
        beam_start(kernel, m, contents, query, ep, n) is Ok,
    ensures
        scored_in(beam_start(kernel, m, contents, query, ep, n)->Ok_0.1, sv),
        scored_in(beam_start(kernel, m, contents, query, ep, n)->Ok_0.2, sv),
    decreases n,
{
    if n > 0 {
        lemma_beam_start_in(kernel, m, contents, query, ep, n - 1, sv);
        let s = beam_start(kernel, m, contents, query, ep, n - 1)->Ok_0;
        let t = beam_start(kernel, m, contents, query, ep, n)->Ok_0;
        assert forall|i: int| 0 <= i < t.1.len() implies sv.contains((#[trigger] t.1[i]).1.0) by {
            if i < s.1.len() {
                assert(t.1[i] == s.1[i]);
            }
        }
        assert forall|i: int| 0 <= i < t.2.len() implies sv.contains((#[trigger] t.2[i]).1.0) by {
            if i < s.2.len() {
                assert(t.2[i] == s.2[i]);
            }
        }
    }
}

proof fn lemma_beam_visit_in<K: Fn(MetricsName, &[u32], &[u32]) -> Result<u32, VestoError>>(
    kernel: K,
    m: MetricsName,
    contents: Map<u64, Seq<u32>>,
    query: Seq<u32>,
    ef: nat,
    nb: Seq<EntityId>,
    k: int,
    s: BeamState,
    sv: Set<u64>,
)
    requires
        0 <= k,
        ids_in(nb, sv),
        scored_in(s.1, sv),
        scored_in(s.2, sv),
        beam_visit(kernel, m, contents, query, ef, nb, k, s) is Ok,
    ensures
        scored_in(beam_visit(kernel, m, contents, query, ef, nb, k, s)->Ok_0.1, sv),
        scored_in(beam_visit(kernel, m, contents, query, ef, nb, k, s)->Ok_0.2, sv),
    decreases nb.len() - k,
{
    if k < nb.len() {
        let e = nb[k];
        if s.0.contains(e.0) {
            lemma_beam_visit_in(kernel, m, contents, query, ef, nb, k + 1, s, sv);
        } else {
            let d = crate::hnsw::dist_to(kernel, m, contents, query, e)->Ok_0;
            let visited = s.0.insert(e.0);
            if float_lt(d, crate::hnsw::worst_of(s.2)) || s.2.len() < ef {
                let found = s.2.push((d, e));
                let c2 = s.1.push((d, e));
                assert(scored_in(found, sv)) by {
                    assert forall|i: int| 0 <= i < found.len() implies sv.contains((#[trigger] found[i]).1.0) by {
                        if i < s.2.len() {
                            assert(found[i] == s.2[i]);
                        }
                    }
                }
                assert(scored_in(c2, sv)) by {
                    assert forall|i: int| 0 <= i < c2.len() implies sv.contains((#[trigger] c2[i]).1.0) by {
                        if i < s.1.len() {
                            assert(c2[i] == s.1[i]);
                        }
                    }
                }
                let kept = if found.len() > ef { swap_out(found, crate::hnsw::max_index(found, found.len() as int)) } else { found };
                if found.len() > ef {
                    crate::hnsw::lemma_max_index_props(found, found.len() as int);
                    lemma_swap_out_in(found, crate::hnsw::max_index(found, found.len() as int), sv);
                }
                lemma_beam_visit_in(kernel, m, contents, query, ef, nb, k + 1, (visited, c2, kept, s.3), sv);
            } else {
                lemma_beam_visit_in(kernel, m, contents, query, ef, nb, k + 1, (visited, s.1, s.2, s.3), sv);
            }
        }
    }
}

proof fn lemma_beam_run_in<K: Fn(MetricsName, &[u32], &[u32]) -> Result<u32, VestoError>>(
    kernel: K,
    m: MetricsName,
    contents: Map<u64, Seq<u32>>,
    layers: LayersView,
    l: int,
    query: Seq<u32>,
    ef: nat,
    ep: Seq<EntityId>,
    n: nat,
    sv: Set<u64>,
)
    requires
        ids_in(ep, sv),
        layer_in(layers, l, sv),
        beam_run(kernel, m, contents, layers, l, query, ef, ep, n) is Ok,
    ensures
        scored_in(beam_run(kernel, m, contents, layers, l, query, ef, ep, n)->Ok_0.1, sv),
        scored_in(beam_run(kernel, m, contents, layers, l, query, ef, ep, n)->Ok_0.2, sv),
    decreases n,
{
    if n == 0 {
        lemma_beam_start_in(kernel, m, contents, query, ep, ep.len() as int, sv);
    } else {
        lemma_beam_run_in(kernel, m, contents, layers, l, query, ef, ep, (n - 1) as nat, sv);
        let s = beam_run(kernel, m, contents, layers, l, query, ef, ep, (n - 1) as nat)->Ok_0;
        if !s.3 && s.1.len() > 0 {
            let ci = min_index(s.1, s.1.len() as int);
            crate::hnsw::lemma_min_index_props(s.1, s.1.len() as int);
            let c = s.1[ci];
            let rest = swap_out(s.1, ci);
            lemma_swap_out_in(s.1, ci, sv);
            if !float_lt(crate::hnsw::worst_of(s.2), c.0) {
                lemma_neighbours_in(layers, l, c.1.0, sv);
                lemma_beam_visit_in(kernel, m, contents, query, ef, neighbours(layers, l, c.1.0), 0, (s.0, rest, s.2, false), sv);
            }
        }
    }
}

/// What a beam search finds is among the entry points and the neighbours
/// the layer lists.
pub proof fn lemma_beam_outcome_in<K: Fn(MetricsName, &[u32], &[u32]) -> Result<u32, VestoError>>(
    kernel: K,
    m: MetricsName,
    contents: Map<u64, Seq<u32>>,
    layers: LayersView,
    l: int,
    query: Seq<u32>,
    ef: nat,
    ep: Seq<EntityId>,
    sv: Set<u64>,
)
    requires
        ids_in(ep, sv),
        layer_in(layers, l, sv),
        beam_outcome(kernel, m, contents, layers, l, query, ef, ep) is Ok,
    ensures
        ids_in(beam_outcome(kernel, m, contents, layers, l, query, ef, ep)->Ok_0, sv),
{
    let n = choose|n: nat| crate::hnsw::beam_ended(#[trigger] beam_run(kernel, m, contents, layers, l, query, ef, ep, n));
    lemma_beam_run_in(kernel, m, contents, layers, l, query, ef, ep, n, sv);
    let s = beam_run(kernel, m, contents, layers, l, query, ef, ep, n)->Ok_0;
    let w = s.2.map_values(|x: Scored| x.1);
    assert forall|i: int| 0 <= i < w.len() implies sv.contains((#[trigger] w[i]).0) by {
        assert(w[i] == s.2[i].1);
    }
}

proof fn lemma_nearest_scan_pos(ids: Seq<EntityId>, contents: Map<u64, Seq<u32>>, dist: spec_fn(Seq<u32>) -> Result<u32, VestoError>, n: int)
    requires
        1 <= n,
        nearest_scan(ids, contents, dist, n) is Ok,
    ensures
        0 <= nearest_scan(ids, contents, dist, n)->Ok_0.1 < n,
    decreases n,
{
    if n > 1 {
        assert(nearest_scan(ids, contents, dist, n - 1) is Ok);
        lemma_nearest_scan_pos(ids, contents, dist, n - 1);
    } else {
        assert(nearest_scan(ids, contents, dist, 0) == Ok::<(u32, int), VestoError>((crate::metrics::spec_infinity(), 0)));
    }
}

proof fn lemma_descend_in<K: Fn(MetricsName, &[u32], &[u32]) -> Result<u32, VestoError>>(
    kernel: K,
    m: MetricsName,
    contents: Map<u64, Seq<u32>>,
    layers: LayersView,
    query: Seq<u32>,
    ep: EntityId,
    lc: int,
    low: int,
    sv: Set<u64>,
)
    requires
        lc < layers.len(),
        0 <= low,
        sv.contains(ep.0),
        forall|l: int| 0 <= l < layers.len() ==> #[trigger] layer_in(layers, l, sv),
        descend(kernel, m, contents, layers, query, ep, lc, low) is Ok,
    ensures
        sv.contains(descend(kernel, m, contents, layers, query, ep, lc, low)->Ok_0.0),
    decreases lc - low,
{
    if lc > low {
        assert(layer_in(layers, lc, sv));
        let one = seq![ep];
        assert(ids_in(one, sv)) by {
            assert forall|i: int| 0 <= i < one.len() implies sv.contains((#[trigger] one[i]).0) by {
                assert(one[i] == ep);
            }
        }
        lemma_beam_outcome_in(kernel, m, contents, layers, lc, query, 1, one, sv);
        let w = beam_outcome(kernel, m, contents, layers, lc, query, 1, one)->Ok_0;
        match nearest_from(w, contents, from_query(kernel, m, query)) {
            Ok(None) => {
                lemma_descend_in(kernel, m, contents, layers, query, ep, lc - 1, low, sv);
            },
            Ok(Some((pos, n))) => {
                lemma_nearest_scan_pos(w, contents, from_query(kernel, m, query), w.len() as int);
                assert(sv.contains(w[pos as int].0));
                lemma_descend_in(kernel, m, contents, layers, query, n, lc - 1, low, sv);
            },
            Err(_) => {},
        }
    }
}

proof fn lemma_scan_in<K: Fn(MetricsName, &[u32], &[u32]) -> Result<u32, VestoError>>(
    kernel: K,
    m: MetricsName,
    contents: Map<u64, Seq<u32>>,
    ws: Seq<Scored>,
    max: nat,
    kept: Seq<Scored>,
    disc: Seq<Scored>,
    sv: Set<u64>,
)
    requires
        scored_in(ws, sv),
        scored_in(kept, sv),
        scored_in(disc, sv),
        heuristic_scan(kernel, m, contents, ws, max, kept, disc) is Ok,
    ensures
        scored_in(heuristic_scan(kernel, m, contents, ws, max, kept, disc)->Ok_0.0, sv),
        scored_in(heuristic_scan(kernel, m, contents, ws, max, kept, disc)->Ok_0.1, sv),
    decreases ws.len(),
{
    if ws.len() > 0 && kept.len() < max {
        let w = ws[0];
        let rest = ws.drop_first();
        assert(scored_in(rest, sv)) by {
            assert forall|i: int| 0 <= i < rest.len() implies sv.contains((#[trigger] rest[i]).1.0) by {
                assert(rest[i] == ws[i + 1]);
            }
        }
        let kp = kept.push(w);
        let dp = disc.push(w);
        assert(scored_in(kp, sv)) by {
            assert forall|i: int| 0 <= i < kp.len() implies sv.contains((#[trigger] kp[i]).1.0) by {
                if i < kept.len() { assert(kp[i] == kept[i]); } else { assert(kp[i] == ws[0]); }
            }
        }
        assert(scored_in(dp, sv)) by {
            assert forall|i: int| 0 <= i < dp.len() implies sv.contains((#[trigger] dp[i]).1.0) by {
                if i < disc.len() { assert(dp[i] == disc[i]); } else { assert(dp[i] == ws[0]); }
            }
        }
        if kept.len() == 0 {
            lemma_scan_in(kernel, m, contents, rest, max, kp, disc, sv);
        } else {
            match closest_scan(kernel, m, contents, kept, contents[w.1.0], kept.len() as int) {
                Ok(c) => {
                    if float_lt(w.0, c) {
                        lemma_scan_in(kernel, m, contents, rest, max, kp, disc, sv);
                    } else {
                        lemma_scan_in(kernel, m, contents, rest, max, kept, dp, sv);
                    }
                },
                Err(_) => {},
            }
        }
    }
}

/// What neighbour selection picks is among the candidates and, when it
/// extends them, their neighbours on the bottom layer.
proof fn lemma_select_in<K: Fn(MetricsName, &[u32], &[u32]) -> Result<u32, VestoError>>(
    kernel: K,
    m: MetricsName,
    contents: Map<u64, Seq<u32>>,
    layers: LayersView,
    heuristic: bool,
    extend_default: bool,
    keep_default: bool,
    query: Seq<u32>,
    w: Seq<EntityId>,
    k: nat,
    extend_candidates: Option<bool>,
    keep_pruned_connections: Option<bool>,
    sv: Set<u64>,
)
    requires
        ids_in(w, sv),
        heuristic && extend_candidates.unwrap_or(extend_default) ==> layer_in(layers, 0, sv),
        select_spec(kernel, m, contents, layers, heuristic, extend_default, keep_default, query, w, k,
            extend_candidates, keep_pruned_connections) is Ok,
    ensures
        scored_in(select_spec(kernel, m, contents, layers, heuristic, extend_default, keep_default, query, w, k,
            extend_candidates, keep_pruned_connections)->Ok_0, sv),
{
    broadcast use vstd::seq_lib::group_to_multiset_ensures;
    if heuristic {
        let ext = extend_candidates.unwrap_or(extend_default);
        let keep = keep_pruned_connections.unwrap_or(keep_default);
        let f = to_query(kernel, m, query);
        let ids = extended_ids(layers, 0, w, ext);
        let work = score_ids(ids, contents, f)->Ok_0;
        lemma_score_ids_props(ids, contents, f);
        assert(scored_in(work, sv)) by {
            assert forall|i: int| 0 <= i < work.len() implies sv.contains((#[trigger] work[i]).1.0) by {
                let x = work[i].1;
                lemma_extended_origin(layers, 0, w, ext, x);
                if w.contains(x) {
                    let j = choose|j: int| 0 <= j < w.len() && w[j] == x;
                } else {
                    let c = choose|c: EntityId| #[trigger] w.contains(c) && neighbours(layers, 0, c.0).contains(x);
                    lemma_neighbours_in(layers, 0, c.0, sv);
                    let j = choose|j: int| 0 <= j < neighbours(layers, 0, c.0).len() && neighbours(layers, 0, c.0)[j] == x;
                }
            }
        }
        let ws = stable_sort_by_score(work);
        lemma_stable_sort_multiset(work);
        assert(scored_in(ws, sv)) by {
            assert forall|i: int| 0 <= i < ws.len() implies sv.contains((#[trigger] ws[i]).1.0) by {
                assert(ws.to_multiset().count(ws[i]) > 0);
                assert(work.contains(ws[i]));
                let j = choose|j: int| 0 <= j < work.len() && work[j] == ws[i];
            }
        }
        lemma_scan_in(kernel, m, contents, ws, k, Seq::empty(), Seq::empty(), sv);
        let (kept, disc) = heuristic_scan(kernel, m, contents, ws, k, Seq::empty(), Seq::empty())->Ok_0;
        if keep {
            lemma_scan_shape(kernel, m, contents, ws, k, Seq::empty(), Seq::empty());
            let r = refill(kept, disc, k);
            if kept.len() + disc.len() <= k {
                assert(r == kept + disc);
                assert forall|i: int| 0 <= i < r.len() implies sv.contains((#[trigger] r[i]).1.0) by {
                    if i < kept.len() {
                        assert(r[i] == kept[i]);
                    } else {
                        assert(r[i] == disc[i - kept.len()]);
                    }
                }
            } else {
                let d = disc.take(k - kept.len());
                assert(r == kept + d);
                assert forall|i: int| 0 <= i < r.len() implies sv.contains((#[trigger] r[i]).1.0) by {
                    if i < kept.len() {
                        assert(r[i] == kept[i]);
                    } else {
                        assert(r[i] == d[i - kept.len()]);
                        assert(d[i - kept.len()] == disc[i - kept.len()]);
                    }
                }
            }
        }
    } else {
        let f = to_query(kernel, m, query);
        let sc = score_ids(w, contents, f)->Ok_0;
        lemma_score_ids_props(w, contents, f);
        lemma_top_k_props(sc, k);
        let t = top_k_by_score(sc, k);
        assert forall|i: int| 0 <= i < t.len() implies sv.contains((#[trigger] t[i]).1.0) by {
            assert(sc.contains(t[i]));
            let j = choose|j: int| 0 <= j < sc.len() && sc[j] == t[i];
            let q = choose|q: int| 0 <= q < w.len() && w[q] == sc[j].1;
        }
    }
}

/// Setting a node's list, where the node and the list are in `sv`, keeps
/// the layers within `sv` and keeps every node.
proof fn lemma_set_in(layers: LayersView, lc: int, key: u64, list: Seq<EntityId>, sv: Set<u64>)
    requires
        0 <= lc < layers.len(),
        refs_in(layers, sv),
        sv.contains(key),
        ids_in(list, sv),
    ensures
        refs_in(layers.update(lc, layers[lc].insert(key, list)), sv),
        keys_grow(layers, layers.update(lc, layers[lc].insert(key, list))),
{
    let nl = layers.update(lc, layers[lc].insert(key, list));
    assert forall|l: int, k: u64| 0 <= l < nl.len() && #[trigger] nl[l].contains_key(k) implies sv.contains(k) by {
        if l != lc || k != key {
            assert(layers[l].contains_key(k));
        }
    }
    assert forall|l: int| 0 <= l < nl.len() implies #[trigger] layer_in(nl, l, sv) by {
        assert(layer_in(layers, l, sv));
        assert forall|k: u64, i: int| nl[l].contains_key(k) && 0 <= i < nl[l][k].len() implies sv.contains((#[trigger] nl[l][k][i]).0) by {
            if l == lc && k == key {
                assert(nl[l][k] == list);
            } else {
                assert(nl[l][k] == layers[l][k]);
                assert(layers[l].contains_key(k));
            }
        }
    }
}

proof fn lemma_link_back_in<K: Fn(MetricsName, &[u32], &[u32]) -> Result<u32, VestoError>>(
    kernel: K,
    m: MetricsName,
    contents: Map<u64, Seq<u32>>,
    heuristic: bool,
    extend_default: bool,
    keep_default: bool,
    layers: LayersView,
    lc: int,
    item: EntityId,
    nbrs: Seq<Scored>,
    j: int,
    mmax: nat,
    sv: Set<u64>,
)
    requires
        0 <= lc < layers.len(),
        0 <= j,
        refs_in(layers, sv),
        sv.contains(item.0),
        scored_in(nbrs, sv),
        link_back(kernel, m, contents, heuristic, extend_default, keep_default, layers, lc, item, nbrs, j, mmax) is Ok,
    ensures
        refs_in(link_back(kernel, m, contents, heuristic, extend_default, keep_default, layers, lc, item, nbrs, j, mmax)->Ok_0, sv),
        keys_grow(layers, link_back(kernel, m, contents, heuristic, extend_default, keep_default, layers, lc, item, nbrs, j, mmax)->Ok_0),
    decreases nbrs.len() - j,
{
    if j < nbrs.len() {
        let e = nbrs[j].1;
        let old_list = neighbours(layers, lc, e.0);
        assert(layer_in(layers, lc, sv));
        lemma_neighbours_in(layers, lc, e.0, sv);
        let list = old_list.push(item);
        assert(ids_in(list, sv)) by {
            assert forall|i: int| 0 <= i < list.len() implies sv.contains((#[trigger] list[i]).0) by {
                if i < old_list.len() { assert(list[i] == old_list[i]); }
            }
        }
        lemma_set_in(layers, lc, e.0, list, sv);
        let l1 = layers.update(lc, layers[lc].insert(e.0, list));
        let conn = neighbours(l1, lc, e.0);
        if conn.len() > mmax {
            assert(layer_in(l1, 0, sv));
            assert(layer_in(l1, lc, sv));
            lemma_neighbours_in(l1, lc, e.0, sv);
            lemma_select_in(kernel, m, contents, l1, heuristic, extend_default, keep_default, contents[e.0], conn, mmax, None, None, sv);
            let sel = select_spec(kernel, m, contents, l1, heuristic, extend_default, keep_default, contents[e.0], conn, mmax, None, None)->Ok_0;
            let ids = ids_seq(sel);
            assert(ids_in(ids, sv)) by {
                assert forall|i: int| 0 <= i < ids.len() implies sv.contains((#[trigger] ids[i]).0) by {
                    assert(ids[i] == sel[i].1);
                }
            }
            lemma_set_in(l1, lc, e.0, ids, sv);
            let l3 = l1.update(lc, l1[lc].insert(e.0, ids));
            lemma_link_back_in(kernel, m, contents, heuristic, extend_default, keep_default, l3, lc, item, nbrs, j + 1, mmax, sv);
        } else {
            lemma_link_back_in(kernel, m, contents, heuristic, extend_default, keep_default, l1, lc, item, nbrs, j + 1, mmax, sv);
        }
    }
}

proof fn lemma_link_down_in<K: Fn(MetricsName, &[u32], &[u32]) -> Result<u32, VestoError>>(
    kernel: K,
    m: MetricsName,
    contents: Map<u64, Seq<u32>>,
    heuristic: bool,
    extend_default: bool,
    keep_default: bool,
    layers: LayersView,
    query: Seq<u32>,
    item: EntityId,
    ep: Seq<EntityId>,
    lc_next: int,
    mm: nat,
    m_max: nat,
    efc: nat,
    extend_candidates: Option<bool>,
    keep_pruned_connections: Option<bool>,
    sv: Set<u64>,
)
    requires
        lc_next <= layers.len(),
        refs_in(layers, sv),
        ids_in(ep, sv),
        sv.contains(item.0),
        link_down(kernel, m, contents, heuristic, extend_default, keep_default, layers, query, item, ep, lc_next, mm, m_max, efc,
            extend_candidates, keep_pruned_connections) is Ok,
    ensures
        ({
            let l2 = link_down(kernel, m, contents, heuristic, extend_default, keep_default, layers, query, item, ep, lc_next, mm, m_max, efc,
                extend_candidates, keep_pruned_connections)->Ok_0;
            &&& refs_in(l2, sv)
            &&& keys_grow(layers, l2)
            &&& lc_next >= 1 ==> l2[0].contains_key(item.0)
        }),
    decreases lc_next,
{
    if lc_next > 0 {
        let lc = lc_next - 1;
        let mmax: nat = if lc == 0 { 2 * mm } else { m_max };
        assert(layer_in(layers, lc, sv));
        assert(layer_in(layers, 0, sv));
        lemma_beam_outcome_in(kernel, m, contents, layers, lc, query, efc, ep, sv);
        let w = beam_outcome(kernel, m, contents, layers, lc, query, efc, ep)->Ok_0;
        lemma_select_in(kernel, m, contents, layers, heuristic, extend_default, keep_default, query, w, mm,
            extend_candidates, keep_pruned_connections, sv);
        let nbrs = select_spec(kernel, m, contents, layers, heuristic, extend_default, keep_default, query, w, mm,
            extend_candidates, keep_pruned_connections)->Ok_0;
        let ids = ids_seq(nbrs);
        assert(ids_in(ids, sv)) by {
            assert forall|i: int| 0 <= i < ids.len() implies sv.contains((#[trigger] ids[i]).0) by {
                assert(ids[i] == nbrs[i].1);
            }
        }
        lemma_set_in(layers, lc, item.0, ids, sv);
        let l1 = layers.update(lc, layers[lc].insert(item.0, ids));
        lemma_link_back_in(kernel, m, contents, heuristic, extend_default, keep_default, l1, lc, item, nbrs, 0, mmax, sv);
        let l2 = link_back(kernel, m, contents, heuristic, extend_default, keep_default, l1, lc, item, nbrs, 0, mmax)->Ok_0;
        assert(l2[lc].contains_key(item.0)) by {
            assert(l1[lc].contains_key(item.0));
        }
        lemma_link_down_in(kernel, m, contents, heuristic, extend_default, keep_default, l2, query, item, w, lc, mm, m_max, efc,
            extend_candidates, keep_pruned_connections, sv);
    }
}

/// The nodes of the bottom layer, none for a graph without layers.
pub open spec fn bottom_nodes(layers: LayersView) -> Set<u64> {
    if layers.len() > 0 { layers[0].dom() } else { Set::empty() }
}

/// Inserting adds exactly the item to the bottom layer's nodes, and keeps
/// every node and every neighbour on every layer a node of the bottom layer
/// (as holds of any graph built by inserts from an empty one).
pub proof fn law_insert_bottom_nodes<K: Fn(MetricsName, &[u32], &[u32]) -> Result<u32, VestoError>>(
    kernel: K,
    m: MetricsName,
    contents: Map<u64, Seq<u32>>,
    heuristic: bool,
    extend_default: bool,
    keep_default: bool,
    layers: LayersView,
    entry: Option<EntityId>,
    item: EntityId,
    mm: nat,
    m_max: nat,
    efc: nat,
    level: int,
    extend_candidates: Option<bool>,
    keep_pruned_connections: Option<bool>,
)
    requires
        graph_wf(layers, entry),
        refs_in(layers, bottom_nodes(layers)),
        0 <= level,
        insert_spec(kernel, m, contents, heuristic, extend_default, keep_default, layers, entry, item, mm, m_max, efc, level,
            extend_candidates, keep_pruned_connections) is Ok,
    ensures
        ({
            let l2 = insert_spec(kernel, m, contents, heuristic, extend_default, keep_default, layers, entry, item, mm, m_max, efc, level,
                extend_candidates, keep_pruned_connections)->Ok_0.0;
            &&& bottom_nodes(l2) == bottom_nodes(layers).insert(item.0)
            &&& refs_in(l2, bottom_nodes(l2))
        }),
{
    reveal(insert_spec);
    let sv = bottom_nodes(layers).insert(item.0);
    match entry {
        None => {
            let l2 = Seq::new((level + 1) as nat, |i: int| Map::<u64, Seq<EntityId>>::empty().insert(item.0, Seq::<EntityId>::empty()));
            assert(bottom_nodes(l2) =~= sv);
            assert forall|l: int| 0 <= l < l2.len() implies #[trigger] layer_in(l2, l, bottom_nodes(l2)) by {
                assert forall|k: u64, i: int| l2[l].contains_key(k) && 0 <= i < l2[l][k].len() implies
                    bottom_nodes(l2).contains((#[trigger] l2[l][k][i]).0) by {
                    assert(l2[l][k].len() == 0);
                }
            }
        },
        Some(e) => {
            let query = contents[item.0];
            let top = layers.len() - 1;
            assert(refs_in(layers, sv)) by {
                assert forall|l: int| 0 <= l < layers.len() implies #[trigger] layer_in(layers, l, sv) by {
                    assert(layer_in(layers, l, bottom_nodes(layers)));
                }
            }
            assert(layers[0].contains_key(e.0));
            lemma_descend_in(kernel, m, contents, layers, query, e, top, level, sv);
            let p = descend(kernel, m, contents, layers, query, e, top, level)->Ok_0;
            let low_top = if top < level { top } else { level };
            let one = seq![p];
            assert(ids_in(one, sv)) by {
                assert forall|i: int| 0 <= i < one.len() implies sv.contains((#[trigger] one[i]).0) by {
                    assert(one[i] == p);
                }
            }
            lemma_link_down_in(kernel, m, contents, heuristic, extend_default, keep_default, layers, query, item, one,
                low_top + 1, mm, m_max, efc, extend_candidates, keep_pruned_connections, sv);
            let l2 = link_down(kernel, m, contents, heuristic, extend_default, keep_default, layers, query, item, one,
                low_top + 1, mm, m_max, efc, extend_candidates, keep_pruned_connections)->Ok_0;
            assert(l2[0].dom() =~= sv) by {
                assert forall|k: u64| sv.contains(k) implies l2[0].contains_key(k) by {
                    if k != item.0 {
                        assert(layers[0].contains_key(k));
                    }
                }
            }
            let fin = if level > top { raise(l2, level, item, e) } else { l2 };
            assert(fin[0] == l2[0]);
            assert(bottom_nodes(fin) =~= sv);
            assert forall|l: int, k: u64| 0 <= l < fin.len() && #[trigger] fin[l].contains_key(k) implies sv.contains(k) by {
                if l < l2.len() {
                    assert(fin[l] == l2[l]);
                } else {
                    assert(fin[l] == Map::<u64, Seq<EntityId>>::empty().insert(item.0, seq![e]));
                }
            }
            assert forall|l: int| 0 <= l < fin.len() implies #[trigger] layer_in(fin, l, sv) by {
                if l < l2.len() {
                    assert(fin[l] == l2[l]);
                    assert(layer_in(l2, l, sv));
                } else {
                    assert(fin[l] == Map::<u64, Seq<EntityId>>::empty().insert(item.0, seq![e]));
                    assert forall|k: u64, i: int| fin[l].contains_key(k) && 0 <= i < fin[l][k].len() implies sv.contains((#[trigger] fin[l][k][i]).0) by {
                        assert(fin[l][k] == seq![e]);
                    }
                }
            }
        },
    }
}

/// No neighbour list on any layer holds an id twice.
pub open spec fn lists_distinct(layers: LayersView) -> bool {
    forall|l: int, k: u64| 0 <= l < layers.len() && #[trigger] layers[l].contains_key(k) ==> distinct_ids(layers[l][k])
}

proof fn lemma_take_distinct(s: Seq<Scored>, n: int)
    requires
        distinct_scored(s),
        0 <= n <= s.len(),
    ensures
        distinct_scored(s.take(n)),
{
    let t = s.take(n);
    assert forall|a: int, b: int| 0 <= a < b < t.len() implies (#[trigger] t[a]).1 != (#[trigger] t[b]).1 by {
        assert(t[a] == s[a] && t[b] == s[b]);
    }
}

proof fn lemma_ids_seq_distinct(s: Seq<Scored>)
    requires
        distinct_scored(s),
    ensures
        distinct_ids(ids_seq(s)),
{
    let t = ids_seq(s);
    assert forall|a: int, b: int| 0 <= a < b < t.len() implies t[a] != t[b] by {
        assert(t[a] == s[a].1 && t[b] == s[b].1);
    }
}

/// Rearranging entries keeps their ids distinct.
proof fn lemma_perm_distinct(a: Seq<Scored>, b: Seq<Scored>)
    requires
        distinct_scored(a),
        a.to_multiset() == b.to_multiset(),
    ensures
        distinct_scored(b),
{
    broadcast use vstd::seq_lib::group_to_multiset_ensures;
    assert(a.no_duplicates()) by {
        assert forall|i: int, j: int| 0 <= i < a.len() && 0 <= j < a.len() && i != j implies a[i] != a[j] by {
            if i < j {
                assert(a[i].1 != a[j].1);
            } else {
                assert(a[j].1 != a[i].1);
            }
        }
    }
    a.lemma_multiset_has_no_duplicates();
    b.lemma_multiset_has_no_duplicates_conv();
    assert forall|x: int, y: int| 0 <= x < y < b.len() implies (#[trigger] b[x]).1 != (#[trigger] b[y]).1 by {
        assert(b[x] != b[y]);
        assert(b.to_multiset().count(b[x]) > 0);
        assert(b.to_multiset().count(b[y]) > 0);
        assert(a.contains(b[x]));
        assert(a.contains(b[y]));
        let p = choose|p: int| 0 <= p < a.len() && a[p] == b[x];
        let q = choose|q: int| 0 <= q < a.len() && a[q] == b[y];
        assert(p != q);
        if p < q {
            assert(a[p].1 != a[q].1);
        } else {
            assert(a[q].1 != a[p].1);
        }
    }
}

proof fn lemma_extend_with_distinct(acc: Seq<EntityId>, nb: Seq<EntityId>)
    requires
        distinct_ids(acc),
    ensures
        distinct_ids(extend_with(acc, nb)),
    decreases nb.len(),
{
    if nb.len() > 0 {
        lemma_extend_with_distinct(acc, nb.drop_last());
        let a = extend_with(acc, nb.drop_last());
        if !a.contains(nb.last()) {
            let b = a.push(nb.last());
            assert forall|x: int, y: int| 0 <= x < y < b.len() implies b[x] != b[y] by {
                assert(b[x] == a[x]);
                if y == a.len() {
                    assert(a.contains(a[x]));
                } else {
                    assert(b[y] == a[y]);
                }
            }
        }
    }
}

proof fn lemma_neighbours_of_all_distinct(layers: LayersView, l: int, ids: Seq<EntityId>, acc: Seq<EntityId>)
    requires
        distinct_ids(acc),
    ensures
        distinct_ids(neighbours_of_all(layers, l, ids, acc)),
    decreases ids.len(),
{
    if ids.len() > 0 {
        lemma_neighbours_of_all_distinct(layers, l, ids.drop_last(), acc);
        lemma_extend_with_distinct(neighbours_of_all(layers, l, ids.drop_last(), acc), neighbours(layers, l, ids.last().0));
    }
}

proof fn lemma_score_ids_distinct(ids: Seq<EntityId>, contents: Map<u64, Seq<u32>>, dist: spec_fn(Seq<u32>) -> Result<u32, VestoError>)
    requires
        distinct_ids(ids),
        score_ids(ids, contents, dist) is Ok,
    ensures
        distinct_scored(score_ids(ids, contents, dist)->Ok_0),
    decreases ids.len(),
{
    if ids.len() > 0 {
        let t = ids.drop_last();
        assert(distinct_ids(t)) by {
            assert forall|a: int, b: int| 0 <= a < b < t.len() implies t[a] != t[b] by {
                assert(t[a] == ids[a] && t[b] == ids[b]);
            }
        }
        lemma_score_ids_distinct(t, contents, dist);
        lemma_score_ids_props(t, contents, dist);
        let s = score_ids(t, contents, dist)->Ok_0;
        let r = score_ids(ids, contents, dist)->Ok_0;
        if contents.contains_key(ids.last().0) {
            assert forall|a: int, b: int| 0 <= a < b < r.len() implies (#[trigger] r[a]).1 != (#[trigger] r[b]).1 by {
                assert(r[a] == s[a]);
                if b == s.len() {
                    assert(t.contains(s[a].1));
                    let j = choose|j: int| 0 <= j < t.len() && t[j] == s[a].1;
                    assert(ids[j] == t[j]);
                    assert(ids[j] != ids[ids.len() - 1]);
                } else {
                    assert(r[b] == s[b]);
                }
            }
        }
    }
}

proof fn lemma_scan_distinct<K: Fn(MetricsName, &[u32], &[u32]) -> Result<u32, VestoError>>(
    kernel: K,
    m: MetricsName,
    contents: Map<u64, Seq<u32>>,
    ws: Seq<Scored>,
    max: nat,
    kept: Seq<Scored>,
    disc: Seq<Scored>,
)
    requires
        distinct_scored(kept + disc + ws),
        heuristic_scan(kernel, m, contents, ws, max, kept, disc) is Ok,
    ensures
        ({
            let (k2, d2) = heuristic_scan(kernel, m, contents, ws, max, kept, disc)->Ok_0;
            distinct_scored(k2 + d2)
        }),
    decreases ws.len(),
{
    let all = kept + disc + ws;
    if ws.len() == 0 || kept.len() >= max {
        lemma_take_distinct(all, (kept.len() + disc.len()) as int);
        assert(all.take((kept.len() + disc.len()) as int) == kept + disc);
    } else {
        let w = ws[0];
        let rest = ws.drop_first();
        let nk = kept.push(w);
        let nd = disc.push(w);
        assert(kept + nd + rest == all);
        let moved = nk + disc + rest;
        assert(distinct_scored(moved)) by {
            let kl = kept.len() as int;
            let dl = disc.len() as int;
            assert forall|x: int, y: int| 0 <= x < y < moved.len() implies (#[trigger] moved[x]).1 != (#[trigger] moved[y]).1 by {
                let px = if x < kl { x } else if x == kl { kl + dl } else if x <= kl + dl { x - 1 } else { x };
                let py = if y < kl { y } else if y == kl { kl + dl } else if y <= kl + dl { y - 1 } else { y };
                assert(moved[x] == all[px]);
                assert(moved[y] == all[py]);
                assert(px != py);
                if px < py {
                    assert(all[px].1 != all[py].1);
                } else {
                    assert(all[py].1 != all[px].1);
                }
            }
        }
        if contents.contains_key(w.1.0) {
            if kept.len() == 0 {
                lemma_scan_distinct(kernel, m, contents, rest, max, nk, disc);
            } else {
                match closest_scan(kernel, m, contents, kept, contents[w.1.0], kept.len() as int) {
                    Ok(c) => {
                        if float_lt(w.0, c) {
                            lemma_scan_distinct(kernel, m, contents, rest, max, nk, disc);
                        } else {
                            lemma_scan_distinct(kernel, m, contents, rest, max, kept, nd);
                        }
                    },
                    Err(_) => {},
                }
            }
        }
    }
}

/// Among candidates with distinct ids, a selection holds no id twice.
proof fn lemma_select_distinct<K: Fn(MetricsName, &[u32], &[u32]) -> Result<u32, VestoError>>(
    kernel: K,
    m: MetricsName,
    contents: Map<u64, Seq<u32>>,
    layers: LayersView,
    heuristic: bool,
    extend_default: bool,
    keep_default: bool,
    query: Seq<u32>,
    w: Seq<EntityId>,
    k: nat,
    extend_candidates: Option<bool>,
    keep_pruned_connections: Option<bool>,
)
    requires
        distinct_ids(w),
        select_spec(kernel, m, contents, layers, heuristic, extend_default, keep_default, query, w, k,
            extend_candidates, keep_pruned_connections) is Ok,
    ensures
        distinct_scored(select_spec(kernel, m, contents, layers, heuristic, extend_default, keep_default, query, w, k,
            extend_candidates, keep_pruned_connections)->Ok_0),
{
    let f = to_query(kernel, m, query);
    if heuristic {
        let ext = extend_candidates.unwrap_or(extend_default);
        let keep = keep_pruned_connections.unwrap_or(keep_default);
        let ids = extended_ids(layers, 0, w, ext);
        if ext {
            lemma_neighbours_of_all_distinct(layers, 0, w, w);
        }
        lemma_score_ids_distinct(ids, contents, f);
        let work = score_ids(ids, contents, f)->Ok_0;
        let ws = stable_sort_by_score(work);
        lemma_stable_sort_multiset(work);
        lemma_perm_distinct(work, ws);
        assert(Seq::<Scored>::empty() + Seq::<Scored>::empty() + ws == ws);
        lemma_scan_distinct(kernel, m, contents, ws, k, Seq::empty(), Seq::empty());
        lemma_scan_shape(kernel, m, contents, ws, k, Seq::empty(), Seq::empty());
        let (kept, disc) = heuristic_scan(kernel, m, contents, ws, k, Seq::empty(), Seq::empty())->Ok_0;
        let both = kept + disc;
        if keep {
            if kept.len() + disc.len() > k {
                lemma_take_distinct(both, k as int);
                assert(both.take(k as int) == kept + disc.take(k - kept.len()));
            }
        } else {
            lemma_take_distinct(both, kept.len() as int);
            assert(both.take(kept.len() as int) == kept);
        }
    } else {
        lemma_score_ids_distinct(w, contents, f);
        let sc = score_ids(w, contents, f)->Ok_0;
        let sorted = stable_sort_by_score(sc);
        lemma_stable_sort_multiset(sc);
        lemma_perm_distinct(sc, sorted);
        if k < sorted.len() {
            lemma_take_distinct(sorted, k as int);
        }
    }
}

/// What a beam search holds is found once, and visited.
pub open spec fn beam_once(s: BeamState) -> bool {
    &&& distinct_scored(s.2)
    &&& forall|i: int| 0 <= i < s.2.len() ==> s.0.contains((#[trigger] s.2[i]).1.0)
}

/// A beam search's start holds the first `n` entry points, in order, and
/// has visited them.
pub open spec fn started_from(s: BeamState, ep: Seq<EntityId>, n: int) -> bool {
    &&& s.2.len() == n
    &&& forall|i: int| 0 <= i < n ==> (#[trigger] s.2[i]).1 == ep[i] && s.0.contains(ep[i].0)
}

proof fn lemma_beam_start_once<K: Fn(MetricsName, &[u32], &[u32]) -> Result<u32, VestoError>>(
    kernel: K,
    m: MetricsName,
    contents: Map<u64, Seq<u32>>,
    query: Seq<u32>,
    ep: Seq<EntityId>,
    n: int,
)
    requires
        0 <= n <= ep.len(),
        beam_start(kernel, m, contents, query, ep, n) is Ok,
    ensures
        started_from(beam_start(kernel, m, contents, query, ep, n)->Ok_0, ep, n),
    decreases n,
{
    if n > 0 {
        lemma_beam_start_once(kernel, m, contents, query, ep, n - 1);
        let s = beam_start(kernel, m, contents, query, ep, n - 1)->Ok_0;
        let d = dist_to(kernel, m, contents, query, ep[n - 1])->Ok_0;
        let t = beam_start(kernel, m, contents, query, ep, n)->Ok_0;
        assert(t == (s.0.insert(ep[n - 1].0), s.1.push((d, ep[n - 1])), s.2.push((d, ep[n - 1])), false));
        assert forall|i: int| 0 <= i < n implies (#[trigger] t.2[i]).1 == ep[i] && t.0.contains(ep[i].0) by {
            if i < n - 1 {
                assert(t.2[i] == s.2[i]);
                assert(s.2[i].1 == ep[i] && s.0.contains(ep[i].0));
            }
        }
    }
}

proof fn lemma_beam_visit_once<K: Fn(MetricsName, &[u32], &[u32]) -> Result<u32, VestoError>>(
    kernel: K,
    m: MetricsName,
    contents: Map<u64, Seq<u32>>,
    query: Seq<u32>,
    ef: nat,
    nb: Seq<EntityId>,
    k: int,
    s: BeamState,
)
    requires
        0 <= k,
        beam_once(s),
        beam_visit(kernel, m, contents, query, ef, nb, k, s) is Ok,
    ensures
        beam_once(beam_visit(kernel, m, contents, query, ef, nb, k, s)->Ok_0),
    decreases nb.len() - k,
{
    if k < nb.len() {
        let e = nb[k];
        if s.0.contains(e.0) {
            lemma_beam_visit_once(kernel, m, contents, query, ef, nb, k + 1, s);
        } else {
            let d = dist_to(kernel, m, contents, query, e)->Ok_0;
            let visited = s.0.insert(e.0);
            if float_lt(d, worst_of(s.2)) || s.2.len() < ef {
                let found = s.2.push((d, e));
                assert(beam_once((visited, s.1, found, s.3))) by {
                    assert forall|a: int, b: int| 0 <= a < b < found.len() implies (#[trigger] found[a]).1 != (#[trigger] found[b]).1 by {
                        assert(found[a] == s.2[a]);
                        if b == s.2.len() {
                            assert(s.0.contains(s.2[a].1.0));
                        } else {
                            assert(found[b] == s.2[b]);
                        }
                    }
                    assert forall|i: int| 0 <= i < found.len() implies visited.contains((#[trigger] found[i]).1.0) by {
                        if i < s.2.len() {
                            assert(found[i] == s.2[i]);
                        }
                    }
                }
                let kept = if found.len() > ef { swap_out(found, max_index(found, found.len() as int)) } else { found };
                if found.len() > ef {
                    let mi = max_index(found, found.len() as int);
                    lemma_max_index_props(found, found.len() as int);
                    lemma_swap_out_distinct(found, mi);
                    assert forall|i: int| 0 <= i < kept.len() implies visited.contains((#[trigger] kept[i]).1.0) by {
                        if i == mi {
                            assert(kept[i] == found[found.len() - 1]);
                        } else {
                            assert(kept[i] == found[i]);
                        }
                    }
                }
                lemma_beam_visit_once(kernel, m, contents, query, ef, nb, k + 1, (visited, s.1.push((d, e)), kept, s.3));
            } else {
                lemma_beam_visit_once(kernel, m, contents, query, ef, nb, k + 1, (visited, s.1, s.2, s.3));
            }
        }
    }
}

proof fn lemma_beam_run_once<K: Fn(MetricsName, &[u32], &[u32]) -> Result<u32, VestoError>>(
    kernel: K,
    m: MetricsName,
    contents: Map<u64, Seq<u32>>,
    layers: LayersView,
    l: int,
    query: Seq<u32>,
    ef: nat,
    ep: Seq<EntityId>,
    n: nat,
)
    requires
        distinct_ids(ep),
        beam_run(kernel, m, contents, layers, l, query, ef, ep, n) is Ok,
    ensures
        beam_once(beam_run(kernel, m, contents, layers, l, query, ef, ep, n)->Ok_0),
    decreases n,
{
    if n == 0 {
        lemma_beam_start_once(kernel, m, contents, query, ep, ep.len() as int);
        let s = beam_start(kernel, m, contents, query, ep, ep.len() as int)->Ok_0;
        assert forall|a: int, b: int| 0 <= a < b < s.2.len() implies (#[trigger] s.2[a]).1 != (#[trigger] s.2[b]).1 by {
            assert(s.2[a].1 == ep[a] && s.2[b].1 == ep[b]);
        }
    } else {
        lemma_beam_run_once(kernel, m, contents, layers, l, query, ef, ep, (n - 1) as nat);
        let s = beam_run(kernel, m, contents, layers, l, query, ef, ep, (n - 1) as nat)->Ok_0;
        if !s.3 && s.1.len() > 0 {
            let ci = min_index(s.1, s.1.len() as int);
            lemma_min_index_props(s.1, s.1.len() as int);
            let c = s.1[ci];
            let rest = swap_out(s.1, ci);
            if !float_lt(worst_of(s.2), c.0) {
                lemma_beam_visit_once(kernel, m, contents, query, ef, neighbours(layers, l, c.1.0), 0, (s.0, rest, s.2, false));
            }
        }
    }
}

/// From distinct entry points, a beam search finds each entity once.
pub proof fn lemma_beam_outcome_distinct<K: Fn(MetricsName, &[u32], &[u32]) -> Result<u32, VestoError>>(
    kernel: K,
    m: MetricsName,
    contents: Map<u64, Seq<u32>>,
    layers: LayersView,
    l: int,
    query: Seq<u32>,
    ef: nat,
    ep: Seq<EntityId>,
)
    requires
        distinct_ids(ep),
        beam_outcome(kernel, m, contents, layers, l, query, ef, ep) is Ok,
    ensures
        distinct_ids(beam_outcome(kernel, m, contents, layers, l, query, ef, ep)->Ok_0),
{
    let n = choose|n: nat| beam_ended(#[trigger] beam_run(kernel, m, contents, layers, l, query, ef, ep, n));
    lemma_beam_run_once(kernel, m, contents, layers, l, query, ef, ep, n);
    let s = beam_run(kernel, m, contents, layers, l, query, ef, ep, n)->Ok_0;
    lemma_ids_seq_distinct(s.2);
    assert(s.2.map_values(|x: Scored| x.1) == ids_seq(s.2));
}

proof fn lemma_link_back_distinct<K: Fn(MetricsName, &[u32], &[u32]) -> Result<u32, VestoError>>(
    kernel: K,
    m: MetricsName,
    contents: Map<u64, Seq<u32>>,
    heuristic: bool,
    extend_default: bool,
    keep_default: bool,
    layers: LayersView,
    lc: int,
    item: EntityId,
    nbrs: Seq<Scored>,
    j: int,
    mmax: nat,
)
    requires
        0 <= j,
        0 <= lc < layers.len(),
        lists_distinct(layers),
        distinct_scored(nbrs),
        forall|i: int| j <= i < nbrs.len() ==> !neighbours(layers, lc, (#[trigger] nbrs[i]).1.0).contains(item),
        link_back(kernel, m, contents, heuristic, extend_default, keep_default, layers, lc, item, nbrs, j, mmax) is Ok,
    ensures
        ({
            let l2 = link_back(kernel, m, contents, heuristic, extend_default, keep_default, layers, lc, item, nbrs, j, mmax)->Ok_0;
            &&& lists_distinct(l2)
            &&& l2.len() == layers.len()
            &&& forall|l: int| 0 <= l < layers.len() && l != lc ==> l2[l] == layers[l]
        }),
    decreases nbrs.len() - j,
{
    if j < nbrs.len() {
        let e = nbrs[j].1;
        let old_list = neighbours(layers, lc, e.0);
        let conn = old_list.push(item);
        let l1 = layers.update(lc, layers[lc].insert(e.0, conn));
        assert(distinct_ids(conn)) by {
            assert forall|x: int, y: int| 0 <= x < y < conn.len() implies conn[x] != conn[y] by {
                assert(conn[x] == old_list[x]);
                if y == old_list.len() {
                    assert(old_list.contains(old_list[x]));
                } else {
                    assert(conn[y] == old_list[y]);
                }
            }
        }
        assert(lists_distinct(l1));
        assert(neighbours(l1, lc, e.0) == conn);
        assert forall|i: int| j + 1 <= i < nbrs.len() implies
            neighbours(l1, lc, (#[trigger] nbrs[i]).1.0) == neighbours(layers, lc, nbrs[i].1.0) by {
            assert(nbrs[j].1 != nbrs[i].1);
        }
        if conn.len() > mmax {
            let sel = select_spec(kernel, m, contents, l1, heuristic, extend_default, keep_default, contents[e.0], conn, mmax, None, None)->Ok_0;
            lemma_select_distinct(kernel, m, contents, l1, heuristic, extend_default, keep_default, contents[e.0], conn, mmax, None, None);
            lemma_ids_seq_distinct(sel);
            let l3 = l1.update(lc, l1[lc].insert(e.0, ids_seq(sel)));
            assert(lists_distinct(l3));
            assert forall|i: int| j + 1 <= i < nbrs.len() implies
                neighbours(l3, lc, (#[trigger] nbrs[i]).1.0) == neighbours(layers, lc, nbrs[i].1.0) by {
                assert(nbrs[j].1 != nbrs[i].1);
                assert(neighbours(l1, lc, nbrs[i].1.0) == neighbours(layers, lc, nbrs[i].1.0));
            }
            lemma_link_back_distinct(kernel, m, contents, heuristic, extend_default, keep_default, l3, lc, item, nbrs, j + 1, mmax);
        } else {
            lemma_link_back_distinct(kernel, m, contents, heuristic, extend_default, keep_default, l1, lc, item, nbrs, j + 1, mmax);
        }
    }
}

proof fn lemma_link_down_distinct<K: Fn(MetricsName, &[u32], &[u32]) -> Result<u32, VestoError>>(
    kernel: K,
    m: MetricsName,
    contents: Map<u64, Seq<u32>>,
    heuristic: bool,
    extend_default: bool,
    keep_default: bool,
    layers: LayersView,
    query: Seq<u32>,
    item: EntityId,
    ep: Seq<EntityId>,
    lc_next: int,
    mm: nat,
    m_max: nat,
    efc: nat,
    extend_candidates: Option<bool>,
    keep_pruned_connections: Option<bool>,
    so: Set<u64>,
)
    requires
        lc_next <= layers.len(),
        lists_distinct(layers),
        distinct_ids(ep),
        ids_in(ep, so),
        !so.contains(item.0),
        forall|l: int| 0 <= l < lc_next ==> #[trigger] layer_in(layers, l, so),
        link_down(kernel, m, contents, heuristic, extend_default, keep_default, layers, query, item, ep, lc_next, mm, m_max, efc,
            extend_candidates, keep_pruned_connections) is Ok,
    ensures
        lists_distinct(link_down(kernel, m, contents, heuristic, extend_default, keep_default, layers, query, item, ep, lc_next, mm,
            m_max, efc, extend_candidates, keep_pruned_connections)->Ok_0),
    decreases lc_next,
{
    if lc_next > 0 {
        let lc = lc_next - 1;
        let mmax: nat = if lc == 0 { 2 * mm } else { m_max };
        assert(layer_in(layers, lc, so));
        assert(layer_in(layers, 0, so));
        lemma_beam_outcome_in(kernel, m, contents, layers, lc, query, efc, ep, so);
        lemma_beam_outcome_distinct(kernel, m, contents, layers, lc, query, efc, ep);
        let w = beam_outcome(kernel, m, contents, layers, lc, query, efc, ep)->Ok_0;
        lemma_select_in(kernel, m, contents, layers, heuristic, extend_default, keep_default, query, w, mm,
            extend_candidates, keep_pruned_connections, so);
        lemma_select_distinct(kernel, m, contents, layers, heuristic, extend_default, keep_default, query, w, mm,
            extend_candidates, keep_pruned_connections);
        let nbrs = select_spec(kernel, m, contents, layers, heuristic, extend_default, keep_default, query, w, mm,
            extend_candidates, keep_pruned_connections)->Ok_0;
        let ids = ids_seq(nbrs);
        lemma_ids_seq_distinct(nbrs);
        let l1 = layers.update(lc, layers[lc].insert(item.0, ids));
        assert(lists_distinct(l1));
        assert forall|i: int| 0 <= i < nbrs.len() implies !neighbours(l1, lc, (#[trigger] nbrs[i]).1.0).contains(item) by {
            let key = nbrs[i].1.0;
            if key == item.0 {
                assert(neighbours(l1, lc, key) == ids);
                if ids.contains(item) {
                    let x = choose|x: int| 0 <= x < ids.len() && ids[x] == item;
                    assert(ids[x] == nbrs[x].1);
                    assert(so.contains(nbrs[x].1.0));
                }
            } else {
                assert(neighbours(l1, lc, key) == neighbours(layers, lc, key));
                lemma_neighbours_in(layers, lc, key, so);
                if neighbours(layers, lc, key).contains(item) {
                    let x = choose|x: int| 0 <= x < neighbours(layers, lc, key).len() && neighbours(layers, lc, key)[x] == item;
                }
            }
        }
        lemma_link_back_distinct(kernel, m, contents, heuristic, extend_default, keep_default, l1, lc, item, nbrs, 0, mmax);
        let l2 = link_back(kernel, m, contents, heuristic, extend_default, keep_default, l1, lc, item, nbrs, 0, mmax)->Ok_0;
        assert forall|l: int| 0 <= l < lc implies #[trigger] layer_in(l2, l, so) by {
            assert(l2[l] == l1[l]);
            assert(l1[l] == layers[l]);
            assert(layer_in(layers, l, so));
        }
        lemma_link_down_distinct(kernel, m, contents, heuristic, extend_default, keep_default, l2, query, item, w, lc, mm, m_max, efc,
            extend_candidates, keep_pruned_connections, so);
    }
}

/// Inserting an item that is not yet a node of the graph leaves no
/// neighbour list holding an id twice, when none did before.
pub proof fn law_insert_lists_distinct<K: Fn(MetricsName, &[u32], &[u32]) -> Result<u32, VestoError>>(
    kernel: K,
    m: MetricsName,
    contents: Map<u64, Seq<u32>>,
    heuristic: bool,
    extend_default: bool,
    keep_default: bool,
    layers: LayersView,
    entry: Option<EntityId>,
    item: EntityId,
    mm: nat,
    m_max: nat,
    efc: nat,
    level: int,
    extend_candidates: Option<bool>,
    keep_pruned_connections: Option<bool>,
)
    requires
        graph_wf(layers, entry),
        refs_in(layers, bottom_nodes(layers)),
        !bottom_nodes(layers).contains(item.0),
        lists_distinct(layers),
        0 <= level,
        insert_spec(kernel, m, contents, heuristic, extend_default, keep_default, layers, entry, item, mm, m_max, efc, level,
            extend_candidates, keep_pruned_connections) is Ok,
    ensures
        lists_distinct(insert_spec(kernel, m, contents, heuristic, extend_default, keep_default, layers, entry, item, mm, m_max, efc,
            level, extend_candidates, keep_pruned_connections)->Ok_0.0),
{
    reveal(insert_spec);
    match entry {
        None => {
            let l2 = Seq::new((level + 1) as nat, |i: int| Map::<u64, Seq<EntityId>>::empty().insert(item.0, Seq::<EntityId>::empty()));
            assert forall|l: int, k: u64| 0 <= l < l2.len() && #[trigger] l2[l].contains_key(k) implies distinct_ids(l2[l][k]) by {
                assert(l2[l][k].len() == 0);
            }
        },
        Some(e) => {
            let so = bottom_nodes(layers);
            let query = contents[item.0];
            let top = layers.len() - 1;
            assert(layers[0].contains_key(e.0));
            lemma_descend_in(kernel, m, contents, layers, query, e, top, level, so);
            let p = descend(kernel, m, contents, layers, query, e, top, level)->Ok_0;
            let low_top = if top < level { top } else { level };
            let one = seq![p];
            assert(ids_in(one, so)) by {
                assert forall|i: int| 0 <= i < one.len() implies so.contains((#[trigger] one[i]).0) by {
                    assert(one[i] == p);
                }
            }
            lemma_link_down_distinct(kernel, m, contents, heuristic, extend_default, keep_default, layers, query, item, one,
                low_top + 1, mm, m_max, efc, extend_candidates, keep_pruned_connections, so);
            let l2 = link_down(kernel, m, contents, heuristic, extend_default, keep_default, layers, query, item, one,
                low_top + 1, mm, m_max, efc, extend_candidates, keep_pruned_connections)->Ok_0;
            if level > top {
                let fin = raise(l2, level, item, e);
                assert forall|l: int, k: u64| 0 <= l < fin.len() && #[trigger] fin[l].contains_key(k) implies distinct_ids(fin[l][k]) by {
                    if l < l2.len() {
                        assert(fin[l] == l2[l]);
                    } else {
                        assert(fin[l] == Map::<u64, Seq<EntityId>>::empty().insert(item.0, seq![e]));
                        assert(fin[l][k].len() == 1);
                    }
                }
            }
        },
    }
}

/// No node lists itself as a neighbour on any layer.
pub open spec fn no_self_links(layers: LayersView) -> bool {
    forall|l: int, k: u64| 0 <= l < layers.len() && #[trigger] layers[l].contains_key(k) ==> !layers[l][k].contains(EntityId(k))
}

proof fn lemma_link_back_no_self<K: Fn(MetricsName, &[u32], &[u32]) -> Result<u32, VestoError>>(
    kernel: K,
    m: MetricsName,
    contents: Map<u64, Seq<u32>>,
    heuristic: bool,
    extend_default: bool,
    keep_default: bool,
    layers: LayersView,
    lc: int,
    item: EntityId,
    nbrs: Seq<Scored>,
    j: int,
    mmax: nat,
)
    requires
        0 <= j,
        0 <= lc < layers.len(),
        !(heuristic && extend_default),
        no_self_links(layers),
        forall|i: int| j <= i < nbrs.len() ==> (#[trigger] nbrs[i]).1 != item,
        link_back(kernel, m, contents, heuristic, extend_default, keep_default, layers, lc, item, nbrs, j, mmax) is Ok,
    ensures
        ({
            let l2 = link_back(kernel, m, contents, heuristic, extend_default, keep_default, layers, lc, item, nbrs, j, mmax)->Ok_0;
            &&& no_self_links(l2)
            &&& l2.len() == layers.len()
            &&& forall|l: int| 0 <= l < layers.len() && l != lc ==> l2[l] == layers[l]
        }),
    decreases nbrs.len() - j,
{
    if j < nbrs.len() {
        let e = nbrs[j].1;
        let old_list = neighbours(layers, lc, e.0);
        let conn = old_list.push(item);
        let l1 = layers.update(lc, layers[lc].insert(e.0, conn));
        assert(!conn.contains(EntityId(e.0))) by {
            if conn.contains(EntityId(e.0)) {
                let x = choose|x: int| 0 <= x < conn.len() && conn[x] == EntityId(e.0);
                if x < old_list.len() {
                    assert(old_list[x] == conn[x]);
                }
            }
        }
        assert(no_self_links(l1));
        assert(neighbours(l1, lc, e.0) == conn);
        if conn.len() > mmax {
            let sv = Set::new(|x: u64| x != e.0);
            assert(ids_in(conn, sv)) by {
                assert forall|i: int| 0 <= i < conn.len() implies sv.contains((#[trigger] conn[i]).0) by {
                    if conn[i].0 == e.0 {
                        assert(conn.contains(conn[i]));
                        assert(conn[i] == EntityId(e.0));
                    }
                }
            }
            lemma_select_in(kernel, m, contents, l1, heuristic, extend_default, keep_default, contents[e.0], conn, mmax, None, None, sv);
            let sel = select_spec(kernel, m, contents, l1, heuristic, extend_default, keep_default, contents[e.0], conn, mmax, None, None)->Ok_0;
            let ids = ids_seq(sel);
            assert(!ids.contains(EntityId(e.0))) by {
                if ids.contains(EntityId(e.0)) {
                    let x = choose|x: int| 0 <= x < ids.len() && ids[x] == EntityId(e.0);
                    assert(ids[x] == sel[x].1);
                    assert(sv.contains(sel[x].1.0));
                }
            }
            let l3 = l1.update(lc, l1[lc].insert(e.0, ids));
            assert(no_self_links(l3));
            lemma_link_back_no_self(kernel, m, contents, heuristic, extend_default, keep_default, l3, lc, item, nbrs, j + 1, mmax);
        } else {
            lemma_link_back_no_self(kernel, m, contents, heuristic, extend_default, keep_default, l1, lc, item, nbrs, j + 1, mmax);
        }
    }
}

proof fn lemma_link_down_no_self<K: Fn(MetricsName, &[u32], &[u32]) -> Result<u32, VestoError>>(
    kernel: K,
    m: MetricsName,
    contents: Map<u64, Seq<u32>>,
    heuristic: bool,
    extend_default: bool,
    keep_default: bool,
    layers: LayersView,
    query: Seq<u32>,
    item: EntityId,
    ep: Seq<EntityId>,
    lc_next: int,
    mm: nat,
    m_max: nat,
    efc: nat,
    extend_candidates: Option<bool>,
    keep_pruned_connections: Option<bool>,
    so: Set<u64>,
)
    requires
        lc_next <= layers.len(),
        !(heuristic && extend_default),
        no_self_links(layers),
        ids_in(ep, so),
        !so.contains(item.0),
        forall|l: int| 0 <= l < lc_next ==> #[trigger] layer_in(layers, l, so),
        link_down(kernel, m, contents, heuristic, extend_default, keep_default, layers, query, item, ep, lc_next, mm, m_max, efc,
            extend_candidates, keep_pruned_connections) is Ok,
    ensures
        no_self_links(link_down(kernel, m, contents, heuristic, extend_default, keep_default, layers, query, item, ep, lc_next, mm,
            m_max, efc, extend_candidates, keep_pruned_connections)->Ok_0),
    decreases lc_next,
{
    if lc_next > 0 {
        let lc = lc_next - 1;
        let mmax: nat = if lc == 0 { 2 * mm } else { m_max };
        assert(layer_in(layers, lc, so));
        assert(layer_in(layers, 0, so));
        lemma_beam_outcome_in(kernel, m, contents, layers, lc, query, efc, ep, so);
        let w = beam_outcome(kernel, m, contents, layers, lc, query, efc, ep)->Ok_0;
        lemma_select_in(kernel, m, contents, layers, heuristic, extend_default, keep_default, query, w, mm,
            extend_candidates, keep_pruned_connections, so);
        let nbrs = select_spec(kernel, m, contents, layers, heuristic, extend_default, keep_default, query, w, mm,
            extend_candidates, keep_pruned_connections)->Ok_0;
        let ids = ids_seq(nbrs);
        let l1 = layers.update(lc, layers[lc].insert(item.0, ids));
        assert(!ids.contains(EntityId(item.0))) by {
            if ids.contains(EntityId(item.0)) {
                let x = choose|x: int| 0 <= x < ids.len() && ids[x] == EntityId(item.0);
                assert(ids[x] == nbrs[x].1);
                assert(so.contains(nbrs[x].1.0));
            }
        }
        assert(no_self_links(l1));
        assert forall|i: int| 0 <= i < nbrs.len() implies (#[trigger] nbrs[i]).1 != item by {
            assert(so.contains(nbrs[i].1.0));
        }
        lemma_link_back_no_self(kernel, m, contents, heuristic, extend_default, keep_default, l1, lc, item, nbrs, 0, mmax);
        let l2 = link_back(kernel, m, contents, heuristic, extend_default, keep_default, l1, lc, item, nbrs, 0, mmax)->Ok_0;
        assert forall|l: int| 0 <= l < lc implies #[trigger] layer_in(l2, l, so) by {
            assert(l2[l] == l1[l]);
            assert(l1[l] == layers[l]);
            assert(layer_in(layers, l, so));
        }
        lemma_link_down_no_self(kernel, m, contents, heuristic, extend_default, keep_default, l2, query, item, w, lc, mm, m_max, efc,
            extend_candidates, keep_pruned_connections, so);
    }
}

/// When a list that outgrows its cap is reselected without extending the
/// candidates, inserting an item that is not yet a node of the graph
/// links no node to itself, when none was before.
pub proof fn law_insert_no_self_links<K: Fn(MetricsName, &[u32], &[u32]) -> Result<u32, VestoError>>(
    kernel: K,
    m: MetricsName,
    contents: Map<u64, Seq<u32>>,
    heuristic: bool,
    extend_default: bool,
    keep_default: bool,
    layers: LayersView,
    entry: Option<EntityId>,
    item: EntityId,
    mm: nat,
    m_max: nat,
    efc: nat,
    level: int,
    extend_candidates: Option<bool>,
    keep_pruned_connections: Option<bool>,
)
    requires
        !(heuristic && extend_default),
        graph_wf(layers, entry),
        refs_in(layers, bottom_nodes(layers)),
        !bottom_nodes(layers).contains(item.0),
        no_self_links(layers),
        0 <= level,
        insert_spec(kernel, m, contents, heuristic, extend_default, keep_default, layers, entry, item, mm, m_max, efc, level,
            extend_candidates, keep_pruned_connections) is Ok,
    ensures
        no_self_links(insert_spec(kernel, m, contents, heuristic, extend_default, keep_default, layers, entry, item, mm, m_max, efc,
            level, extend_candidates, keep_pruned_connections)->Ok_0.0),
{
    reveal(insert_spec);
    match entry {
        None => {
            let l2 = Seq::new((level + 1) as nat, |i: int| Map::<u64, Seq<EntityId>>::empty().insert(item.0, Seq::<EntityId>::empty()));
            assert forall|l: int, k: u64| 0 <= l < l2.len() && #[trigger] l2[l].contains_key(k) implies !l2[l][k].contains(EntityId(k)) by {
                assert(l2[l][k].len() == 0);
            }
        },
        Some(e) => {
            let so = bottom_nodes(layers);
            let query = contents[item.0];
            let top = layers.len() - 1;
            assert(layers[0].contains_key(e.0));
            lemma_descend_in(kernel, m, contents, layers, query, e, top, level, so);
            let p = descend(kernel, m, contents, layers, query, e, top, level)->Ok_0;
            let low_top = if top < level { top } else { level };
            let one = seq![p];
            assert(ids_in(one, so)) by {
                assert forall|i: int| 0 <= i < one.len() implies so.contains((#[trigger] one[i]).0) by {
                    assert(one[i] == p);
                }
            }
            lemma_link_down_no_self(kernel, m, contents, heuristic, extend_default, keep_default, layers, query, item, one,
                low_top + 1, mm, m_max, efc, extend_candidates, keep_pruned_connections, so);
            let l2 = link_down(kernel, m, contents, heuristic, extend_default, keep_default, layers, query, item, one,
                low_top + 1, mm, m_max, efc, extend_candidates, keep_pruned_connections)->Ok_0;
            if level > top {
                let fin = raise(l2, level, item, e);
                assert forall|l: int, k: u64| 0 <= l < fin.len() && #[trigger] fin[l].contains_key(k) implies !fin[l][k].contains(EntityId(k)) by {
                    if l < l2.len() {
                        assert(fin[l] == l2[l]);
                    } else {
                        assert(fin[l] == Map::<u64, Seq<EntityId>>::empty().insert(item.0, seq![e]));
                        assert(k == item.0);
                        assert(fin[l][k] == seq![e]);
                        if fin[l][k].contains(EntityId(k)) {
                            let x = choose|x: int| 0 <= x < fin[l][k].len() && fin[l][k][x] == EntityId(k);
                            assert(e == EntityId(item.0));
                        }
                    }
                }
            }
        },
    }
}

proof fn lemma_float_lt_trans(a: u32, b: u32, c: u32)
    requires
        float_lt(a, b),
        float_lt(b, c),
    ensures
        float_lt(a, c),
{
}

/// Below a value that another number is not below, a value is below that
/// number too.
proof fn lemma_float_lt_below(x: u32, c: u32, d: u32)
    requires
        float_lt(x, c),
        !is_nan(d),
        !float_lt(d, c),
    ensures
        float_lt(x, d),
{
}

/// The scan for the least distance gives one that no (numeric) distance to
/// the first `n` kept entries is below, unless it is NaN.
proof fn lemma_closest_scan_least<K: Fn(MetricsName, &[u32], &[u32]) -> Result<u32, VestoError>>(
    kernel: K,
    m: MetricsName,
    contents: Map<u64, Seq<u32>>,
    kept: Seq<Scored>,
    v: Seq<u32>,
    n: int,
)
    requires
        1 <= n <= kept.len(),
        closest_scan(kernel, m, contents, kept, v, n) is Ok,
    ensures
        forall|j: int| 0 <= j < n ==> #[trigger] kernel_value(kernel, m, contents[kept[j].1.0], v) is Ok,
        !is_nan(closest_scan(kernel, m, contents, kept, v, n)->Ok_0) ==> forall|j: int| 0 <= j < n
            && !is_nan(kernel_value(kernel, m, contents[kept[j].1.0], v)->Ok_0)
            ==> !float_lt(#[trigger] kernel_value(kernel, m, contents[kept[j].1.0], v)->Ok_0, closest_scan(kernel, m, contents, kept, v, n)->Ok_0),
    decreases n,
{
    if n > 1 {
        lemma_closest_scan_least(kernel, m, contents, kept, v, n - 1);
        let best = closest_scan(kernel, m, contents, kept, v, n - 1)->Ok_0;
        let d = kernel_value(kernel, m, contents[kept[n - 1].1.0], v)->Ok_0;
        let c = closest_scan(kernel, m, contents, kept, v, n)->Ok_0;
        if !is_nan(c) {
            assert forall|j: int| 0 <= j < n && !is_nan(kernel_value(kernel, m, contents[kept[j].1.0], v)->Ok_0)
                implies !float_lt(#[trigger] kernel_value(kernel, m, contents[kept[j].1.0], v)->Ok_0, c) by {
                let dj = kernel_value(kernel, m, contents[kept[j].1.0], v)->Ok_0;
                if j < n - 1 {
                    if float_lt(d, best) {
                        if float_lt(dj, d) {
                            lemma_float_lt_trans(dj, d, best);
                        }
                    }
                }
            }
        }
    }
}

/// Entries spread apart: each entry after the first is nearer to the query
/// (its score) than to every entry before it, wherever that distance is a
/// number (the distance is always given).
pub open spec fn spread_apart<K: Fn(MetricsName, &[u32], &[u32]) -> Result<u32, VestoError>>(
    kernel: K,
    m: MetricsName,
    contents: Map<u64, Seq<u32>>,
    r: Seq<Scored>,
) -> bool {
    forall|j: int, i: int| #![trigger r[j], r[i]] 0 <= j < i < r.len() ==> {
        &&& kernel_value(kernel, m, contents[r[j].1.0], contents[r[i].1.0]) is Ok
        &&& !is_nan(kernel_value(kernel, m, contents[r[j].1.0], contents[r[i].1.0])->Ok_0)
            ==> float_lt(r[i].0, kernel_value(kernel, m, contents[r[j].1.0], contents[r[i].1.0])->Ok_0)
    }
}

proof fn lemma_scan_apart<K: Fn(MetricsName, &[u32], &[u32]) -> Result<u32, VestoError>>(
    kernel: K,
    m: MetricsName,
    contents: Map<u64, Seq<u32>>,
    ws: Seq<Scored>,
    max: nat,
    kept: Seq<Scored>,
    disc: Seq<Scored>,
)
    requires
        spread_apart(kernel, m, contents, kept),
        heuristic_scan(kernel, m, contents, ws, max, kept, disc) is Ok,
    ensures
        spread_apart(kernel, m, contents, heuristic_scan(kernel, m, contents, ws, max, kept, disc)->Ok_0.0),
    decreases ws.len(),
{
    if ws.len() > 0 && kept.len() < max {
        let w = ws[0];
        let rest = ws.drop_first();
        let nk = kept.push(w);
        if contents.contains_key(w.1.0) {
            if kept.len() == 0 {
                assert(spread_apart(kernel, m, contents, nk));
                lemma_scan_apart(kernel, m, contents, rest, max, nk, disc);
            } else {
                let v = contents[w.1.0];
                match closest_scan(kernel, m, contents, kept, v, kept.len() as int) {
                    Ok(c) => {
                        if float_lt(w.0, c) {
                            lemma_closest_scan_least(kernel, m, contents, kept, v, kept.len() as int);
                            assert forall|j: int, i: int| #![trigger nk[j], nk[i]] 0 <= j < i < nk.len() implies {
                                &&& kernel_value(kernel, m, contents[nk[j].1.0], contents[nk[i].1.0]) is Ok
                                &&& !is_nan(kernel_value(kernel, m, contents[nk[j].1.0], contents[nk[i].1.0])->Ok_0)
                                    ==> float_lt(nk[i].0, kernel_value(kernel, m, contents[nk[j].1.0], contents[nk[i].1.0])->Ok_0)
                            } by {
                                assert(nk[j] == kept[j]);
                                if i < kept.len() {
                                    assert(nk[i] == kept[i]);
                                } else {
                                    assert(nk[i] == w);
                                    let dj = kernel_value(kernel, m, contents[kept[j].1.0], v);
                                    assert(dj is Ok);
                                    if !is_nan(dj->Ok_0) {
                                        lemma_float_lt_below(w.0, c, dj->Ok_0);
                                    }
                                }
                            }
                            lemma_scan_apart(kernel, m, contents, rest, max, nk, disc);
                        } else {
                            lemma_scan_apart(kernel, m, contents, rest, max, kept, disc.push(w));
                        }
                    },
                    Err(_) => {},
                }
            }
        }
    }
}

/// The diversity heuristic (without refilling from the pruned candidates)
/// keeps an entry after the first only when it is nearer to the query than
/// to each entry it kept before: for every two entries of the result, the
/// later one's distance to the query is IEEE-less than its distance to the
/// earlier one, wherever that distance is a number.
pub proof fn law_heuristic_keeps_apart<K: Fn(MetricsName, &[u32], &[u32]) -> Result<u32, VestoError>>(
    kernel: K,
    m: MetricsName,
    contents: Map<u64, Seq<u32>>,
    layers: LayersView,
    l: int,
    cands: Seq<EntityId>,
    query: Seq<u32>,
    max: nat,
    extend: bool,
)
    requires
        heuristic_select(kernel, m, contents, layers, l, cands, query, max, extend, false) is Ok,
    ensures
        spread_apart(kernel, m, contents, heuristic_select(kernel, m, contents, layers, l, cands, query, max, extend, false)->Ok_0),
{
    let work = score_ids(extended_ids(layers, l, cands, extend), contents, to_query(kernel, m, query))->Ok_0;
    lemma_scan_apart(kernel, m, contents, stable_sort_by_score(work), max, Seq::empty(), Seq::empty());
}

/// `kept` holds the entries of `pool` nearest to `v`: at most `k` of the
/// pool's stored entries; all of them when fewer than `k` are kept; and no
/// stored entry left out is nearer to `v` (in the total order of distances)
/// than a kept one.
pub open spec fn nearest_kept<K: Fn(MetricsName, &[u32], &[u32]) -> Result<u32, VestoError>>(
    kernel: K,
    m: MetricsName,
    contents: Map<u64, Seq<u32>>,
    v: Seq<u32>,
    pool: Seq<EntityId>,
    kept: Seq<EntityId>,
    k: nat,
) -> bool {
    &&& kept.len() <= k
    &&& forall|i: int| 0 <= i < kept.len() ==> pool.contains(#[trigger] kept[i]) && contents.contains_key(kept[i].0)
    &&& kept.len() < k ==> forall|y: EntityId| #[trigger] pool.contains(y) && contents.contains_key(y.0) ==> kept.contains(y)
    &&& forall|x: EntityId, y: EntityId| #[trigger] kept.contains(x) && #[trigger] pool.contains(y) && contents.contains_key(y.0)
        && !kept.contains(y) ==> {
            &&& kernel_value(kernel, m, contents[x.0], v) is Ok
            &&& kernel_value(kernel, m, contents[y.0], v) is Ok
            &&& total_key(kernel_value(kernel, m, contents[x.0], v)->Ok_0) <= total_key(kernel_value(kernel, m, contents[y.0], v)->Ok_0)
        }
}

/// Scoring keeps every stored id.
proof fn lemma_score_ids_complete(ids: Seq<EntityId>, contents: Map<u64, Seq<u32>>, dist: spec_fn(Seq<u32>) -> Result<u32, VestoError>, y: EntityId)
    requires
        score_ids(ids, contents, dist) is Ok,
        ids.contains(y),
        contents.contains_key(y.0),
    ensures
        exists|q: int| 0 <= q < score_ids(ids, contents, dist)->Ok_0.len() && (#[trigger] score_ids(ids, contents, dist)->Ok_0[q]).1 == y,
    decreases ids.len(),
{
    let t = ids.drop_last();
    let s = score_ids(t, contents, dist)->Ok_0;
    let r = score_ids(ids, contents, dist)->Ok_0;
    if ids.last() == y {
        assert(r[s.len() as int].1 == y);
    } else {
        let j = choose|j: int| 0 <= j < ids.len() && ids[j] == y;
        assert(t[j] == y);
        lemma_score_ids_complete(t, contents, dist, y);
        let q = choose|q: int| 0 <= q < s.len() && (#[trigger] s[q]).1 == y;
        assert(r[q] == s[q]);
    }
}

/// What the `k` best leave out is no better than what they keep, and they
/// leave out nothing when fewer than `k` are kept.
proof fn lemma_top_k_leaves_worse(sc: Seq<Scored>, k: nat, q: int)
    requires
        0 <= q < sc.len(),
        !top_k_by_score(sc, k).contains(sc[q]),
    ensures
        top_k_by_score(sc, k).len() == k,
        forall|i: int| 0 <= i < k ==> total_key((#[trigger] top_k_by_score(sc, k)[i]).0) <= total_key(sc[q].0),
{
    broadcast use vstd::seq_lib::group_to_multiset_ensures;
    let sorted = stable_sort_by_score(sc);
    lemma_stable_sort_len(sc);
    lemma_stable_sort_sorted(sc);
    lemma_stable_sort_multiset(sc);
    assert(sc.to_multiset().count(sc[q]) > 0) by {
        assert(sc.contains(sc[q]));
    }
    assert(sorted.contains(sc[q]));
    let p = choose|p: int| 0 <= p < sorted.len() && sorted[p] == sc[q];
    let t = top_k_by_score(sc, k);
    if k >= sorted.len() {
        assert(t.contains(sorted[p]));
    } else {
        if p < k {
            assert(t[p] == sorted[p]);
        }
        assert forall|i: int| 0 <= i < k implies total_key((#[trigger] t[i]).0) <= total_key(sc[q].0) by {
            assert(t[i] == sorted[i]);
        }
    }
}

proof fn lemma_select_plain_nearest<K: Fn(MetricsName, &[u32], &[u32]) -> Result<u32, VestoError>>(
    kernel: K,
    m: MetricsName,
    contents: Map<u64, Seq<u32>>,
    layers: LayersView,
    extend_default: bool,
    keep_default: bool,
    v: Seq<u32>,
    pool: Seq<EntityId>,
    k: nat,
)
    requires
        select_spec(kernel, m, contents, layers, false, extend_default, keep_default, v, pool, k, None, None) is Ok,
    ensures
        nearest_kept(kernel, m, contents, v, pool,
            ids_seq(select_spec(kernel, m, contents, layers, false, extend_default, keep_default, v, pool, k, None, None)->Ok_0), k),
{
    let f = to_query(kernel, m, v);
    let sc = score_ids(pool, contents, f)->Ok_0;
    let t = top_k_by_score(sc, k);
    let kept = ids_seq(t);
    lemma_score_ids_props(pool, contents, f);
    lemma_top_k_props(sc, k);
    assert forall|i: int| 0 <= i < kept.len() implies pool.contains(#[trigger] kept[i]) && contents.contains_key(kept[i].0) by {
        assert(kept[i] == t[i].1);
        assert(sc.contains(t[i]));
        let q = choose|q: int| 0 <= q < sc.len() && sc[q] == t[i];
    }
    assert forall|y: EntityId| #[trigger] pool.contains(y) && contents.contains_key(y.0) && !kept.contains(y) implies kept.len() == k by {
        lemma_score_ids_complete(pool, contents, f, y);
        let q = choose|q: int| 0 <= q < sc.len() && (#[trigger] sc[q]).1 == y;
        if t.contains(sc[q]) {
            let i = choose|i: int| 0 <= i < t.len() && t[i] == sc[q];
            assert(kept[i] == y);
        }
        lemma_top_k_leaves_worse(sc, k, q);
    }
    assert forall|x: EntityId, y: EntityId| #[trigger] kept.contains(x) && #[trigger] pool.contains(y) && contents.contains_key(y.0)
        && !kept.contains(y) implies {
            &&& kernel_value(kernel, m, contents[x.0], v) is Ok
            &&& kernel_value(kernel, m, contents[y.0], v) is Ok
            &&& total_key(kernel_value(kernel, m, contents[x.0], v)->Ok_0) <= total_key(kernel_value(kernel, m, contents[y.0], v)->Ok_0)
        } by {
        let i = choose|i: int| 0 <= i < kept.len() && kept[i] == x;
        assert(kept[i] == t[i].1);
        assert(sc.contains(t[i]));
        let p = choose|p: int| 0 <= p < sc.len() && sc[p] == t[i];
        lemma_score_ids_complete(pool, contents, f, y);
        let q = choose|q: int| 0 <= q < sc.len() && (#[trigger] sc[q]).1 == y;
        if t.contains(sc[q]) {
            let i2 = choose|i2: int| 0 <= i2 < t.len() && t[i2] == sc[q];
            assert(kept[i2] == y);
        }
        lemma_top_k_leaves_worse(sc, k, q);
        assert(total_key(t[i].0) <= total_key(sc[q].0));
    }
}

proof fn lemma_link_back_untouched<K: Fn(MetricsName, &[u32], &[u32]) -> Result<u32, VestoError>>(
    kernel: K,
    m: MetricsName,
    contents: Map<u64, Seq<u32>>,
    heuristic: bool,
    extend_default: bool,
    keep_default: bool,
    layers: LayersView,
    lc: int,
    item: EntityId,
    nbrs: Seq<Scored>,
    j: int,
    mmax: nat,
    key: u64,
)
    requires
        0 <= j,
        0 <= lc < layers.len(),
        forall|i: int| j <= i < nbrs.len() ==> (#[trigger] nbrs[i]).1.0 != key,
        link_back(kernel, m, contents, heuristic, extend_default, keep_default, layers, lc, item, nbrs, j, mmax) is Ok,
    ensures
        ({
            let l2 = link_back(kernel, m, contents, heuristic, extend_default, keep_default, layers, lc, item, nbrs, j, mmax)->Ok_0;
            &&& l2.len() == layers.len()
            &&& l2[lc].contains_key(key) == layers[lc].contains_key(key)
            &&& layers[lc].contains_key(key) ==> l2[lc][key] == layers[lc][key]
        }),
    decreases nbrs.len() - j,
{
    if j < nbrs.len() {
        let e = nbrs[j].1;
        let l1 = layers.update(lc, layers[lc].insert(e.0, neighbours(layers, lc, e.0).push(item)));
        let conn = neighbours(l1, lc, e.0);
        if conn.len() > mmax {
            let sel = select_spec(kernel, m, contents, l1, heuristic, extend_default, keep_default, contents[e.0], conn, mmax, None, None)->Ok_0;
            let l3 = l1.update(lc, l1[lc].insert(e.0, ids_seq(sel)));
            lemma_link_back_untouched(kernel, m, contents, heuristic, extend_default, keep_default, l3, lc, item, nbrs, j + 1, mmax, key);
        } else {
            lemma_link_back_untouched(kernel, m, contents, heuristic, extend_default, keep_default, l1, lc, item, nbrs, j + 1, mmax, key);
        }
    }
}

/// Every entry is scored by its distance to `query`.
pub open spec fn all_scored_right<K: Fn(MetricsName, &[u32], &[u32]) -> Result<u32, VestoError>>(
    contents: Map<u64, Seq<u32>>,
    kernel: K,
    m: MetricsName,
    query: Seq<u32>,
    s: Seq<Scored>,
) -> bool {
    forall|i: int| 0 <= i < s.len() ==> scored_right(contents, kernel, m, query, #[trigger] s[i])
}

proof fn lemma_scan_scored<K: Fn(MetricsName, &[u32], &[u32]) -> Result<u32, VestoError>>(
    kernel: K,
    m: MetricsName,
    contents: Map<u64, Seq<u32>>,
    query: Seq<u32>,
    ws: Seq<Scored>,
    max: nat,
    kept: Seq<Scored>,
    disc: Seq<Scored>,
)
    requires
        all_scored_right(contents, kernel, m, query, ws),
        all_scored_right(contents, kernel, m, query, kept),
        all_scored_right(contents, kernel, m, query, disc),
        heuristic_scan(kernel, m, contents, ws, max, kept, disc) is Ok,
    ensures
        all_scored_right(contents, kernel, m, query, heuristic_scan(kernel, m, contents, ws, max, kept, disc)->Ok_0.0),
        all_scored_right(contents, kernel, m, query, heuristic_scan(kernel, m, contents, ws, max, kept, disc)->Ok_0.1),
    decreases ws.len(),
{
    if ws.len() > 0 && kept.len() < max {
        let w = ws[0];
        let rest = ws.drop_first();
        assert(all_scored_right(contents, kernel, m, query, rest)) by {
            assert forall|i: int| 0 <= i < rest.len() implies scored_right(contents, kernel, m, query, #[trigger] rest[i]) by {
                assert(rest[i] == ws[i + 1]);
            }
        }
        let kp = kept.push(w);
        let dp = disc.push(w);
        assert(all_scored_right(contents, kernel, m, query, kp)) by {
            assert forall|i: int| 0 <= i < kp.len() implies scored_right(contents, kernel, m, query, #[trigger] kp[i]) by {
                if i < kept.len() { assert(kp[i] == kept[i]); } else { assert(kp[i] == ws[0]); }
            }
        }
        assert(all_scored_right(contents, kernel, m, query, dp)) by {
            assert forall|i: int| 0 <= i < dp.len() implies scored_right(contents, kernel, m, query, #[trigger] dp[i]) by {
                if i < disc.len() { assert(dp[i] == disc[i]); } else { assert(dp[i] == ws[0]); }
            }
        }
        if kept.len() == 0 {
            lemma_scan_scored(kernel, m, contents, query, rest, max, kp, disc);
        } else {
            match closest_scan(kernel, m, contents, kept, contents[w.1.0], kept.len() as int) {
                Ok(c) => {
                    if float_lt(w.0, c) {
                        lemma_scan_scored(kernel, m, contents, query, rest, max, kp, disc);
                    } else {
                        lemma_scan_scored(kernel, m, contents, query, rest, max, kept, dp);
                    }
                },
                Err(_) => {},
            }
        }
    }
}

/// The diversity heuristic scores each entry it gives by that entry's
/// distance to the query.
proof fn lemma_heuristic_scored<K: Fn(MetricsName, &[u32], &[u32]) -> Result<u32, VestoError>>(
    kernel: K,
    m: MetricsName,
    contents: Map<u64, Seq<u32>>,
    layers: LayersView,
    l: int,
    cands: Seq<EntityId>,
    query: Seq<u32>,
    max: nat,
    extend: bool,
    keep: bool,
)
    requires
        heuristic_select(kernel, m, contents, layers, l, cands, query, max, extend, keep) is Ok,
    ensures
        all_scored_right(contents, kernel, m, query, heuristic_select(kernel, m, contents, layers, l, cands, query, max, extend, keep)->Ok_0),
{
    broadcast use vstd::seq_lib::group_to_multiset_ensures;
    let f = to_query(kernel, m, query);
    let ids = extended_ids(layers, l, cands, extend);
    let work = score_ids(ids, contents, f)->Ok_0;
    lemma_score_ids_props(ids, contents, f);
    let ws = stable_sort_by_score(work);
    lemma_stable_sort_multiset(work);
    assert(all_scored_right(contents, kernel, m, query, ws)) by {
        assert forall|i: int| 0 <= i < ws.len() implies scored_right(contents, kernel, m, query, #[trigger] ws[i]) by {
            assert(ws.to_multiset().count(ws[i]) > 0) by {
                assert(ws.contains(ws[i]));
            }
            assert(work.contains(ws[i]));
            let j = choose|j: int| 0 <= j < work.len() && work[j] == ws[i];
        }
    }
    lemma_scan_scored(kernel, m, contents, query, ws, max, Seq::empty(), Seq::empty());
    lemma_scan_shape(kernel, m, contents, ws, max, Seq::empty(), Seq::empty());
    let (kept, disc) = heuristic_scan(kernel, m, contents, ws, max, Seq::empty(), Seq::empty())->Ok_0;
    if keep {
        let r = refill(kept, disc, max);
        assert forall|i: int| 0 <= i < r.len() implies scored_right(contents, kernel, m, query, #[trigger] r[i]) by {
            if i < kept.len() {
                assert(r[i] == kept[i]);
            } else {
                assert(r[i] == disc[i - kept.len()]);
            }
        }
    }
}

/// The ids spread apart around `v`: each id after the first is nearer to
/// `v` than to every id before it, wherever that distance is a number (the
/// distances are always given).
pub open spec fn ids_spread_around<K: Fn(MetricsName, &[u32], &[u32]) -> Result<u32, VestoError>>(
    kernel: K,
    m: MetricsName,
    contents: Map<u64, Seq<u32>>,
    v: Seq<u32>,
    ids: Seq<EntityId>,
) -> bool {
    forall|j: int, i: int| #![trigger ids[j], ids[i]] 0 <= j < i < ids.len() ==> {
        &&& kernel_value(kernel, m, contents[ids[j].0], contents[ids[i].0]) is Ok
        &&& kernel_value(kernel, m, contents[ids[i].0], v) is Ok
        &&& !is_nan(kernel_value(kernel, m, contents[ids[j].0], contents[ids[i].0])->Ok_0)
            ==> float_lt(kernel_value(kernel, m, contents[ids[i].0], v)->Ok_0, kernel_value(kernel, m, contents[ids[j].0], contents[ids[i].0])->Ok_0)
    }
}

/// The first id is no farther from `v` (in the total order of distances)
/// than any stored entry of `pool`.
pub open spec fn first_nearest<K: Fn(MetricsName, &[u32], &[u32]) -> Result<u32, VestoError>>(
    kernel: K,
    m: MetricsName,
    contents: Map<u64, Seq<u32>>,
    v: Seq<u32>,
    pool: Seq<EntityId>,
    ids: Seq<EntityId>,
) -> bool {
    ids.len() > 0 ==> forall|y: EntityId| #[trigger] pool.contains(y) && contents.contains_key(y.0) ==> {
        &&& kernel_value(kernel, m, contents[ids[0].0], v) is Ok
        &&& kernel_value(kernel, m, contents[y.0], v) is Ok
        &&& total_key(kernel_value(kernel, m, contents[ids[0].0], v)->Ok_0) <= total_key(kernel_value(kernel, m, contents[y.0], v)->Ok_0)
    }
}

proof fn lemma_extend_with_keeps(acc: Seq<EntityId>, nb: Seq<EntityId>, x: EntityId)
    requires
        acc.contains(x),
    ensures
        extend_with(acc, nb).contains(x),
    decreases nb.len(),
{
    if nb.len() > 0 {
        lemma_extend_with_keeps(acc, nb.drop_last(), x);
        let a = extend_with(acc, nb.drop_last());
        if !a.contains(nb.last()) {
            let j = choose|j: int| 0 <= j < a.len() && a[j] == x;
            assert(a.push(nb.last())[j] == x);
        }
    }
}

proof fn lemma_neighbours_of_all_keeps(layers: LayersView, l: int, ids: Seq<EntityId>, acc: Seq<EntityId>, x: EntityId)
    requires
        acc.contains(x),
    ensures
        neighbours_of_all(layers, l, ids, acc).contains(x),
    decreases ids.len(),
{
    if ids.len() > 0 {
        lemma_neighbours_of_all_keeps(layers, l, ids.drop_last(), acc, x);
        lemma_extend_with_keeps(neighbours_of_all(layers, l, ids.drop_last(), acc), neighbours(layers, l, ids.last().0), x);
    }
}

proof fn lemma_scan_keeps_prefix<K: Fn(MetricsName, &[u32], &[u32]) -> Result<u32, VestoError>>(
    kernel: K,
    m: MetricsName,
    contents: Map<u64, Seq<u32>>,
    ws: Seq<Scored>,
    max: nat,
    kept: Seq<Scored>,
    disc: Seq<Scored>,
)
    requires
        heuristic_scan(kernel, m, contents, ws, max, kept, disc) is Ok,
    ensures
        ({
            let (k2, d2) = heuristic_scan(kernel, m, contents, ws, max, kept, disc)->Ok_0;
            &&& k2.len() >= kept.len()
            &&& forall|i: int| 0 <= i < kept.len() ==> #[trigger] k2[i] == kept[i]
            &&& (ws.len() == 0 || max == 0) && kept.len() == 0 && disc.len() == 0 ==> k2.len() == 0 && d2.len() == 0
            &&& ws.len() > 0 && max > 0 && kept.len() == 0 ==> k2.len() > 0 && k2[0] == ws[0]
        }),
    decreases ws.len(),
{
    if ws.len() > 0 && kept.len() < max {
        let w = ws[0];
        let rest = ws.drop_first();
        let kp = kept.push(w);
        if contents.contains_key(w.1.0) {
            if kept.len() == 0 {
                lemma_scan_keeps_prefix(kernel, m, contents, rest, max, kp, disc);
                assert(kp[0] == w);
            } else {
                match closest_scan(kernel, m, contents, kept, contents[w.1.0], kept.len() as int) {
                    Ok(c) => {
                        if float_lt(w.0, c) {
                            lemma_scan_keeps_prefix(kernel, m, contents, rest, max, kp, disc);
                            assert forall|i: int| 0 <= i < kept.len() implies kp[i] == kept[i] by {}
                        } else {
                            lemma_scan_keeps_prefix(kernel, m, contents, rest, max, kept, disc.push(w));
                        }
                    },
                    Err(_) => {},
                }
            }
        }
    }
}

/// What the diversity heuristic gives first is the nearest entry to the
/// query among the stored candidates.
proof fn lemma_heuristic_first_nearest<K: Fn(MetricsName, &[u32], &[u32]) -> Result<u32, VestoError>>(
    kernel: K,
    m: MetricsName,
    contents: Map<u64, Seq<u32>>,
    layers: LayersView,
    l: int,
    cands: Seq<EntityId>,
    query: Seq<u32>,
    max: nat,
    extend: bool,
    keep: bool,
)
    requires
        heuristic_select(kernel, m, contents, layers, l, cands, query, max, extend, keep) is Ok,
    ensures
        first_nearest(kernel, m, contents, query, cands,
            ids_seq(heuristic_select(kernel, m, contents, layers, l, cands, query, max, extend, keep)->Ok_0)),
{
    broadcast use vstd::seq_lib::group_to_multiset_ensures;
    let f = to_query(kernel, m, query);
    let ids = extended_ids(layers, l, cands, extend);
    let work = score_ids(ids, contents, f)->Ok_0;
    lemma_score_ids_props(ids, contents, f);
    let ws = stable_sort_by_score(work);
    lemma_stable_sort_multiset(work);
    lemma_stable_sort_sorted(work);
    lemma_stable_sort_len(work);
    lemma_scan_keeps_prefix(kernel, m, contents, ws, max, Seq::empty(), Seq::empty());
    lemma_scan_shape(kernel, m, contents, ws, max, Seq::empty(), Seq::empty());
    let (kept, disc) = heuristic_scan(kernel, m, contents, ws, max, Seq::empty(), Seq::empty())->Ok_0;
    let r = heuristic_select(kernel, m, contents, layers, l, cands, query, max, extend, keep)->Ok_0;
    let out = ids_seq(r);
    if out.len() > 0 {
        assert(ws.len() > 0 && max > 0);
        assert(r[0] == kept[0]);
        assert(r[0] == ws[0]);
        assert(ws.to_multiset().count(ws[0]) > 0) by {
            assert(ws.contains(ws[0]));
        }
        let j0 = choose|j: int| 0 <= j < work.len() && work[j] == ws[0];
        assert forall|y: EntityId| #[trigger] cands.contains(y) && contents.contains_key(y.0) implies {
            &&& kernel_value(kernel, m, contents[out[0].0], query) is Ok
            &&& kernel_value(kernel, m, contents[y.0], query) is Ok
            &&& total_key(kernel_value(kernel, m, contents[out[0].0], query)->Ok_0) <= total_key(kernel_value(kernel, m, contents[y.0], query)->Ok_0)
        } by {
            assert(out[0] == r[0].1);
            if extend {
                lemma_neighbours_of_all_keeps(layers, l, cands, cands, y);
            }
            lemma_score_ids_complete(ids, contents, f, y);
            let q = choose|q: int| 0 <= q < work.len() && (#[trigger] work[q]).1 == y;
            assert(work.to_multiset().count(work[q]) > 0) by {
                assert(work.contains(work[q]));
            }
            assert(ws.contains(work[q]));
            let p = choose|p: int| 0 <= p < ws.len() && ws[p] == work[q];
            if p > 0 {
                assert(total_key(ws[0].0) <= total_key(ws[p].0));
            }
        }
    }
}

proof fn lemma_link_back_shrinks_at<K: Fn(MetricsName, &[u32], &[u32]) -> Result<u32, VestoError>>(
    kernel: K,
    m: MetricsName,
    contents: Map<u64, Seq<u32>>,
    heuristic: bool,
    extend_default: bool,
    keep_default: bool,
    layers: LayersView,
    lc: int,
    item: EntityId,
    nbrs: Seq<Scored>,
    j0: int,
    mmax: nat,
    j: int,
    list: Seq<EntityId>,
)
    requires
        0 <= j0 <= j < nbrs.len(),
        0 <= lc < layers.len(),
        distinct_scored(nbrs),
        neighbours(layers, lc, nbrs[j].1.0) == list,
        list.len() + 1 > mmax,
        link_back(kernel, m, contents, heuristic, extend_default, keep_default, layers, lc, item, nbrs, j0, mmax) is Ok,
    ensures
        ({
            let l2 = link_back(kernel, m, contents, heuristic, extend_default, keep_default, layers, lc, item, nbrs, j0, mmax)->Ok_0;
            let e = nbrs[j].1;
            &&& contents.contains_key(e.0)
            &&& l2[lc].contains_key(e.0)
            &&& !heuristic ==> nearest_kept(kernel, m, contents, contents[e.0], list.push(item), l2[lc][e.0], mmax)
            &&& heuristic ==> first_nearest(kernel, m, contents, contents[e.0], list.push(item), l2[lc][e.0])
            &&& heuristic && !keep_default ==> ids_spread_around(kernel, m, contents, contents[e.0], l2[lc][e.0])
        }),
    decreases j - j0,
{
    let e0 = nbrs[j0].1;
    let l1 = layers.update(lc, layers[lc].insert(e0.0, neighbours(layers, lc, e0.0).push(item)));
    let conn = neighbours(l1, lc, e0.0);
    if j0 < j {
        assert(nbrs[j0].1 != nbrs[j].1);
        if conn.len() > mmax {
            let sel = select_spec(kernel, m, contents, l1, heuristic, extend_default, keep_default, contents[e0.0], conn, mmax, None, None)->Ok_0;
            let l3 = l1.update(lc, l1[lc].insert(e0.0, ids_seq(sel)));
            assert(neighbours(l3, lc, nbrs[j].1.0) == list);
            lemma_link_back_shrinks_at(kernel, m, contents, heuristic, extend_default, keep_default, l3, lc, item, nbrs, j0 + 1, mmax, j, list);
        } else {
            assert(neighbours(l1, lc, nbrs[j].1.0) == list);
            lemma_link_back_shrinks_at(kernel, m, contents, heuristic, extend_default, keep_default, l1, lc, item, nbrs, j0 + 1, mmax, j, list);
        }
    } else {
        assert(conn == list.push(item));
        let v = contents[e0.0];
        let sel = select_spec(kernel, m, contents, l1, heuristic, extend_default, keep_default, v, conn, mmax, None, None)->Ok_0;
        let l3 = l1.update(lc, l1[lc].insert(e0.0, ids_seq(sel)));
        if heuristic {
            lemma_heuristic_first_nearest(kernel, m, contents, l1, 0, conn, v, mmax, extend_default, keep_default);
            if !keep_default {
                law_heuristic_keeps_apart(kernel, m, contents, l1, 0, conn, v, mmax, extend_default);
                lemma_heuristic_scored(kernel, m, contents, l1, 0, conn, v, mmax, extend_default, keep_default);
                let ids = ids_seq(sel);
                assert forall|a: int, b: int| #![trigger ids[a], ids[b]] 0 <= a < b < ids.len() implies {
                    &&& kernel_value(kernel, m, contents[ids[a].0], contents[ids[b].0]) is Ok
                    &&& kernel_value(kernel, m, contents[ids[b].0], v) is Ok
                    &&& !is_nan(kernel_value(kernel, m, contents[ids[a].0], contents[ids[b].0])->Ok_0)
                        ==> float_lt(kernel_value(kernel, m, contents[ids[b].0], v)->Ok_0, kernel_value(kernel, m, contents[ids[a].0], contents[ids[b].0])->Ok_0)
                } by {
                    assert(ids[a] == sel[a].1 && ids[b] == sel[b].1);
                    assert(scored_right(contents, kernel, m, v, sel[b]));
                }
            }
        } else {
            lemma_select_plain_nearest(kernel, m, contents, l1, extend_default, keep_default, v, conn, mmax);
        }
        assert forall|i: int| j0 + 1 <= i < nbrs.len() implies (#[trigger] nbrs[i]).1.0 != e0.0 by {
            assert(nbrs[j0].1 != nbrs[i].1);
        }
        lemma_link_back_untouched(kernel, m, contents, heuristic, extend_default, keep_default, l3, lc, item, nbrs, j0 + 1, mmax, e0.0);
    }
}

/// Linking back: when a chosen neighbour `e`'s list on the layer, with the
/// new item appended, outgrows the cap and is shrunk, the list `e` keeps is
/// chosen around `e`'s own stored vector. Without the heuristic it is made
/// of the entries of the grown list nearest to `e`: at most the cap of them,
/// all stored ones when fewer are kept, and none left out nearer to `e` than
/// one kept. With the heuristic its first entry is no farther from `e` than
/// any stored entry of the grown list, and (without refilling from pruned
/// ones) each later entry is nearer to `e` than to every entry before it.
pub proof fn law_link_back_keeps_nearest<K: Fn(MetricsName, &[u32], &[u32]) -> Result<u32, VestoError>>(
    kernel: K,
    m: MetricsName,
    contents: Map<u64, Seq<u32>>,
    heuristic: bool,
    extend_default: bool,
    keep_default: bool,
    layers: LayersView,
    lc: int,
    item: EntityId,
    nbrs: Seq<Scored>,
    mmax: nat,
    j: int,
)
    requires
        0 <= lc < layers.len(),
        0 <= j < nbrs.len(),
        distinct_scored(nbrs),
        neighbours(layers, lc, nbrs[j].1.0).len() + 1 > mmax,
        link_back(kernel, m, contents, heuristic, extend_default, keep_default, layers, lc, item, nbrs, 0, mmax) is Ok,
    ensures
        ({
            let l2 = link_back(kernel, m, contents, heuristic, extend_default, keep_default, layers, lc, item, nbrs, 0, mmax)->Ok_0;
            let e = nbrs[j].1;
            let grown = neighbours(layers, lc, e.0).push(item);
            &&& contents.contains_key(e.0)
            &&& l2[lc].contains_key(e.0)
            &&& !heuristic ==> nearest_kept(kernel, m, contents, contents[e.0], grown, l2[lc][e.0], mmax)
            &&& heuristic ==> first_nearest(kernel, m, contents, contents[e.0], grown, l2[lc][e.0])
            &&& heuristic && !keep_default ==> ids_spread_around(kernel, m, contents, contents[e.0], l2[lc][e.0])
        }),
{
    lemma_link_back_shrinks_at(kernel, m, contents, heuristic, extend_default, keep_default, layers, lc, item, nbrs, 0, mmax, j,
        neighbours(layers, lc, nbrs[j].1.0));
}

} // verus!
