use vstd::prelude::*;

use crate::Vesto;
use crate::collection::Collection;
use crate::flat::{VestoFlatIndex, score_ids, to_query};
use crate::hnsw::{LayersView, beam_outcome, closest_scan, descend, extended_ids, heuristic_scan, heuristic_select, ids_seq, insert_spec,
    keeps_nodes, link_back, link_down, neighbours, raise, refill, select_spec};
use crate::metrics::{MetricsName, float_lt, total_key};
use crate::ranking::{Scored, lemma_stable_sort_len, lemma_top_k_props, lemma_stable_sort_multiset, lemma_stable_sort_sorted, stable_sort_by_score, top_k_by_score};
use crate::error::VestoError;
use crate::store::{StoreModel, VestoStore, fresh_rows, last_positions};
use crate::hnsw_index::VestoHNSWIndex;
use crate::types::EntityId;
use crate::store::file::{load_panics, meta_wire, postcard_meta_decode, reloaded, spec_load, spec_save_bytes};

verus! {

/// Reading back what was inserted: after storing `vectors` from id `start`
/// on, the id `start + i` holds `vectors[i]`.
pub proof fn law_read_after_insert(before: Map<u64, Seq<u32>>, start: u64, vectors: Seq<Seq<u32>>, i: int)
    requires
        0 <= i < vectors.len(),
        start + vectors.len() <= u64::MAX,
    ensures
        fresh_rows(before, start, vectors).contains_key((start + i) as u64),
        fresh_rows(before, start, vectors)[(start + i) as u64] == vectors[i],
{
}

/// Inserting leaves every id below the first new one as it was.
pub proof fn law_insert_keeps_older(before: Map<u64, Seq<u32>>, start: u64, vectors: Seq<Seq<u32>>, k: u64)
    requires
        k < start,
    ensures
        fresh_rows(before, start, vectors).contains_key(k) == before.contains_key(k),
        before.contains_key(k) ==> fresh_rows(before, start, vectors)[k] == before[k],
{
}

/// The best result comes first: no scored entry is better than the first
/// of the top `k`.
pub proof fn law_first_result_is_best(s: Seq<Scored>, k: nat, j: int)
    requires
        k > 0,
        0 <= j < s.len(),
    ensures
        top_k_by_score(s, k).len() > 0,
        total_key(top_k_by_score(s, k)[0].0) <= total_key(s[j].0),
{
    broadcast use vstd::seq_lib::group_to_multiset_ensures;
    let sorted = stable_sort_by_score(s);
    lemma_stable_sort_len(s);
    lemma_stable_sort_sorted(s);
    lemma_stable_sort_multiset(s);
    assert(s.to_multiset().count(s[j]) > 0);
    assert(sorted.contains(s[j]));
    let p = choose|p: int| 0 <= p < sorted.len() && sorted[p] == s[j];
    assert(top_k_by_score(s, k)[0] == sorted[0]);
    if p > 0 {
        assert(total_key(sorted[0].0) <= total_key(sorted[p].0));
    }
}

/// The top `k` are `min(k, n)` of the `n` scored entries.
pub proof fn law_top_k_len(s: Seq<Scored>, k: nat)
    ensures
        top_k_by_score(s, k).len() == if k < s.len() { k } else { s.len() },
{
    lemma_stable_sort_len(s);
}

/// The IEEE comparison the searches use agrees with the total order they
/// sort by: a score that is IEEE-less is earlier in the total order.
pub proof fn law_float_lt_is_total_order(a: u32, b: u32)
    requires
        float_lt(a, b),
    ensures
        total_key(a) < total_key(b),
{
}

/// A collection just added is found under its name.
pub proof fn law_added_collection_is_found(before: Vesto, after: Vesto, c: Collection)
    requires
        after.spec_collections() == before.spec_collections().push(c),
    ensures
        after.names().contains(c.spec_name()),
{
    assert(after.names()[before.spec_collections().len() as int] == c.spec_name());
}

/// Saving and loading back gives the same store. Take the bytes
/// `save_to_bytes` makes of a store when the vectors are written
/// little-endian, with the meta bytes postcard gives for its ids and next id
/// (which postcard reads back as the same pair, as `encode_meta` states of
/// every call). Loading those bytes does not panic, and whatever
/// `load_from_bytes` returns on them (`loaded`, as its contract relates it to
/// the bytes) is `Ok` of a store with the same dimension, ids, next id and
/// rows, each id recorded at its last position among the ids: the very same
/// store when its ids were recorded so (as in every store built by inserts).
pub proof fn law_save_load_round_trip(s: VestoStore, loaded: Result<VestoStore, VestoError>)
    requires
        s.wf(),
        postcard_meta_decode(meta_wire(s@.ids, s@.next_id)) == Some((s@.ids, s@.next_id)),
        spec_save_bytes(s@, meta_wire(s@.ids, s@.next_id), true).len() <= usize::MAX,
        match loaded {
            Ok(t) => t.wf() && spec_load(spec_save_bytes(s@, meta_wire(s@.ids, s@.next_id), true)) == Ok::<StoreModel, VestoError>(t@),
            Err(e) => spec_load(spec_save_bytes(s@, meta_wire(s@.ids, s@.next_id), true)) == Err::<StoreModel, VestoError>(e),
        },
    ensures
        !load_panics(spec_save_bytes(s@, meta_wire(s@.ids, s@.next_id), true)),
        loaded matches Ok(t) && t@ == reloaded(s@),
        s@.pos == last_positions(s@.ids) ==> (loaded matches Ok(t) && t@ == s@),
{
    s.lemma_load_of_saved(meta_wire(s@.ids, s@.next_id), spec_save_bytes(s@, meta_wire(s@.ids, s@.next_id), true));
}

/// The total length of a list of id lists.
pub open spec fn total_len(ds: Seq<Seq<EntityId>>) -> nat
    decreases ds.len(),
{
    if ds.len() == 0 { 0 } else { total_len(ds.drop_last()) + ds.last().len() }
}

proof fn lemma_total_len_zero(ds: Seq<Seq<EntityId>>)
    ensures
        total_len(ds) == 0 <==> forall|i: int| 0 <= i < ds.len() ==> (#[trigger] ds[i]).len() == 0,
    decreases ds.len(),
{
    if ds.len() > 0 {
        lemma_total_len_zero(ds.drop_last());
        if total_len(ds) == 0 {
            assert forall|i: int| 0 <= i < ds.len() implies (#[trigger] ds[i]).len() == 0 by {
                if i < ds.len() - 1 {
                    assert(ds[i] == ds.drop_last()[i]);
                }
            }
        } else if forall|i: int| 0 <= i < ds.len() ==> (#[trigger] ds[i]).len() == 0 {
            assert forall|i: int| 0 <= i < ds.drop_last().len() implies (#[trigger] ds.drop_last()[i]).len() == 0 by {
                assert(ds.drop_last()[i] == ds[i]);
            }
            assert(ds[ds.len() - 1].len() == 0);
        }
    }
}

proof fn lemma_flat_len_prefix(states: Seq<VestoFlatIndex>, ds: Seq<Seq<EntityId>>, n: int)
    requires
        states.len() == ds.len() + 1,
        0 <= n <= ds.len(),
        states[0].spec_data().len() == 0,
        forall|i: int| 0 <= i < ds.len() ==> #[trigger] states[i + 1].spec_data() == states[i].spec_data() + ds[i],
    ensures
        states[n].spec_data().len() == total_len(ds.take(n)),
    decreases n,
{
    if n > 0 {
        lemma_flat_len_prefix(states, ds, n - 1);
        assert(ds.take(n).drop_last() =~= ds.take(n - 1));
        assert(states[(n - 1) + 1].spec_data() == states[n - 1].spec_data() + ds[n - 1]);
    }
}

/// An exhaustive index made empty and then given the id lists `ds` one
/// insert after another (each insert appends its list, as
/// `VestoFlatIndex::insert` ensures) holds as many entities as the lists
/// have in all, duplicates counted; so it is empty exactly when every list
/// was.
pub proof fn law_flat_len_after_inserts(states: Seq<VestoFlatIndex>, ds: Seq<Seq<EntityId>>)
    requires
        states.len() == ds.len() + 1,
        states[0].spec_data().len() == 0,
        forall|i: int| 0 <= i < ds.len() ==> #[trigger] states[i + 1].spec_data() == states[i].spec_data() + ds[i],
    ensures
        states.last().spec_data().len() == total_len(ds),
        (states.last().spec_data().len() == 0) <==> forall|i: int| 0 <= i < ds.len() ==> (#[trigger] ds[i]).len() == 0,
{
    lemma_flat_len_prefix(states, ds, ds.len() as int);
    assert(ds.take(ds.len() as int) =~= ds);
    lemma_total_len_zero(ds);
}

/// What an insert of the ids `d` that returned `Ok` ensures of an HNSW
/// index's layers (as `VestoHNSWIndex::insert` states): no node is lost, the
/// index has a layer once an id went in, and no id leaves it as it was.
pub open spec fn hnsw_ok_insert(before: VestoHNSWIndex, after: VestoHNSWIndex, d: Seq<EntityId>) -> bool {
    &&& keeps_nodes(before.graph().spec_layers(), after.graph().spec_layers())
    &&& d.len() > 0 ==> after.graph().spec_layers().len() > 0
    &&& d.len() == 0 ==> after.graph().spec_layers() == before.graph().spec_layers()
}

proof fn lemma_hnsw_empty_prefix(states: Seq<VestoHNSWIndex>, ds: Seq<Seq<EntityId>>, n: int)
    requires
        states.len() == ds.len() + 1,
        0 <= n <= ds.len(),
        states[0].graph().spec_layers().len() == 0,
        forall|i: int| 0 <= i < ds.len() ==> hnsw_ok_insert(states[i], #[trigger] states[i + 1], ds[i]),
    ensures
        (states[n].graph().spec_layers().len() == 0) <==> forall|i: int| 0 <= i < n ==> (#[trigger] ds[i]).len() == 0,
    decreases n,
{
    if n > 0 {
        lemma_hnsw_empty_prefix(states, ds, n - 1);
        assert(hnsw_ok_insert(states[n - 1], states[(n - 1) + 1], ds[n - 1]));
        if ds[n - 1].len() > 0 {
            assert(states[n].graph().spec_layers().len() > 0);
        }
    }
}

/// An HNSW index made empty and then given the id lists `ds` one insert
/// after another, each returning `Ok` (what each such insert ensures is
/// `hnsw_ok_insert`), is empty (has no layer, which is what `is_empty`
/// reports) exactly when every list was empty.
pub proof fn law_hnsw_empty_after_inserts(states: Seq<VestoHNSWIndex>, ds: Seq<Seq<EntityId>>)
    requires
        states.len() == ds.len() + 1,
        states[0].graph().spec_layers().len() == 0,
        forall|i: int| 0 <= i < ds.len() ==> hnsw_ok_insert(states[i], #[trigger] states[i + 1], ds[i]),
    ensures
        (states.last().graph().spec_layers().len() == 0) <==> forall|i: int| 0 <= i < ds.len() ==> (#[trigger] ds[i]).len() == 0,
{
    lemma_hnsw_empty_prefix(states, ds, ds.len() as int);
}

pub(crate) proof fn lemma_scan_shape<K: Fn(MetricsName, &[u32], &[u32]) -> Result<u32, VestoError>>(
    kernel: K,
    m: MetricsName,
    contents: Map<u64, Seq<u32>>,
    ws: Seq<Scored>,
    max: nat,
    kept: Seq<Scored>,
    disc: Seq<Scored>,
)
    requires
        kept.len() <= max,
        heuristic_scan(kernel, m, contents, ws, max, kept, disc) is Ok,
    ensures
        ({
            let (k2, d2) = heuristic_scan(kernel, m, contents, ws, max, kept, disc)->Ok_0;
            &&& k2.len() <= max
            &&& k2.len() + d2.len() <= kept.len() + disc.len() + ws.len()
            &&& k2.len() < max ==> k2.len() + d2.len() == kept.len() + disc.len() + ws.len()
        }),
    decreases ws.len(),
{
    if ws.len() > 0 && kept.len() < max {
        let w = ws[0];
        let rest = ws.drop_first();
        if kept.len() == 0 {
            lemma_scan_shape(kernel, m, contents, rest, max, kept.push(w), disc);
        } else {
            match closest_scan(kernel, m, contents, kept, contents[w.1.0], kept.len() as int) {
                Ok(c) => {
                    if float_lt(w.0, c) {
                        lemma_scan_shape(kernel, m, contents, rest, max, kept.push(w), disc);
                    } else {
                        lemma_scan_shape(kernel, m, contents, rest, max, kept, disc.push(w));
                    }
                },
                Err(_) => {},
            }
        }
    }
}

/// Refilling from the pruned candidates: when the diversity heuristic
/// without refill selects `r0`, with refill it selects `r0` followed by the
/// first of the candidates it pruned, in the order it met them (nearest
/// first), up to `max` in all; so it selects `min(max, n)` entries, `n`
/// being the number of stored entries in its work list.
pub proof fn law_heuristic_refill<K: Fn(MetricsName, &[u32], &[u32]) -> Result<u32, VestoError>>(
    kernel: K,
    m: MetricsName,
    contents: Map<u64, Seq<u32>>,
    layers: LayersView,
    l: int,
    cands: Seq<EntityId>,
    query: Seq<u32>,
    max: nat,
    extend: bool,
    r0: Seq<Scored>,
)
    requires
        heuristic_select(kernel, m, contents, layers, l, cands, query, max, extend, false) == Ok::<Seq<Scored>, VestoError>(r0),
    ensures
        ({
            let work = score_ids(extended_ids(layers, l, cands, extend), contents, to_query(kernel, m, query))->Ok_0;
            let ws = stable_sort_by_score(work);
            let disc = heuristic_scan(kernel, m, contents, ws, max, Seq::empty(), Seq::empty())->Ok_0.1;
            &&& heuristic_select(kernel, m, contents, layers, l, cands, query, max, extend, true) matches Ok(r)
            &&& r.len() == if max < work.len() { max } else { work.len() }
            &&& r == r0 + disc.take(r.len() - r0.len())
        }),
{
    let work = score_ids(extended_ids(layers, l, cands, extend), contents, to_query(kernel, m, query))->Ok_0;
    let ws = stable_sort_by_score(work);
    lemma_stable_sort_len(work);
    lemma_scan_shape(kernel, m, contents, ws, max, Seq::empty(), Seq::empty());
    let (k2, d2) = heuristic_scan(kernel, m, contents, ws, max, Seq::empty(), Seq::empty())->Ok_0;
    assert(k2 == r0);
    let r = refill(k2, d2, max);
    if k2.len() + d2.len() <= max {
        assert(d2.take(r.len() - r0.len()) =~= d2);
    } else {
        assert(r.len() == max);
    }
}

/// The most neighbours a node may have on layer `l`: `2 * mm` on the bottom
/// layer, `m_max` above it.
pub open spec fn cap(l: int, mm: nat, m_max: nat) -> nat {
    if l == 0 { 2 * mm } else { m_max }
}

/// Every neighbour list is within its layer's cap.
pub open spec fn degrees_within(layers: LayersView, mm: nat, m_max: nat) -> bool {
    forall|l: int, k: u64| 0 <= l < layers.len() && #[trigger] layers[l].contains_key(k) ==> layers[l][k].len() <= cap(l, mm, m_max)
}

proof fn lemma_select_len<K: Fn(MetricsName, &[u32], &[u32]) -> Result<u32, VestoError>>(
    kernel: K,
    m: MetricsName,
    contents: Map<u64, Seq<u32>>,
    layers: LayersView,
    heuristic: bool,
    extend_default: bool,
    keep_default: bool,
    query: Seq<u32>,
    w: Seq<EntityId>,
    k: nat,
    extend_candidates: Option<bool>,
    keep_pruned_connections: Option<bool>,
)
    requires
        select_spec(kernel, m, contents, layers, heuristic, extend_default, keep_default, query, w, k,
            extend_candidates, keep_pruned_connections) is Ok,
    ensures
        select_spec(kernel, m, contents, layers, heuristic, extend_default, keep_default, query, w, k,
            extend_candidates, keep_pruned_connections)->Ok_0.len() <= k,
{
    if heuristic {
        let ext = extend_candidates.unwrap_or(extend_default);
        let work = score_ids(extended_ids(layers, 0, w, ext), contents, to_query(kernel, m, query))->Ok_0;
        let ws = stable_sort_by_score(work);
        lemma_scan_shape(kernel, m, contents, ws, k, Seq::empty(), Seq::empty());
    } else {
        let sc = score_ids(w, contents, to_query(kernel, m, query))->Ok_0;
        lemma_top_k_props(sc, k);
    }
}

proof fn lemma_link_back_bound<K: Fn(MetricsName, &[u32], &[u32]) -> Result<u32, VestoError>>(
    kernel: K,
    m: MetricsName,
    contents: Map<u64, Seq<u32>>,
    heuristic: bool,
    extend_default: bool,
    keep_default: bool,
    layers: LayersView,
    lc: int,
    item: EntityId,
    nbrs: Seq<Scored>,
    j: int,
    mmax: nat,
)
    requires
        0 <= lc < layers.len(),
        mmax >= 1,
        forall|k: u64| #[trigger] layers[lc].contains_key(k) ==> layers[lc][k].len() <= mmax,
        link_back(kernel, m, contents, heuristic, extend_default, keep_default, layers, lc, item, nbrs, j, mmax) is Ok,
    ensures
        ({
            let l2 = link_back(kernel, m, contents, heuristic, extend_default, keep_default, layers, lc, item, nbrs, j, mmax)->Ok_0;
            &&& l2.len() == layers.len()
            &&& forall|l: int| 0 <= l < layers.len() && l != lc ==> #[trigger] l2[l] == layers[l]
            &&& forall|k: u64| #[trigger] l2[lc].contains_key(k) ==> l2[lc][k].len() <= mmax
        }),
    decreases nbrs.len() - j,
{
    if j < nbrs.len() {
        let e = nbrs[j].1;
        let l1 = layers.update(lc, layers[lc].insert(e.0, neighbours(layers, lc, e.0).push(item)));
        let conn = neighbours(l1, lc, e.0);
        if conn.len() > mmax {
            let sel = select_spec(kernel, m, contents, l1, heuristic, extend_default, keep_default, contents[e.0], conn, mmax, None, None)->Ok_0;
            lemma_select_len(kernel, m, contents, l1, heuristic, extend_default, keep_default, contents[e.0], conn, mmax, None, None);
            let l3 = l1.update(lc, l1[lc].insert(e.0, ids_seq(sel)));
            assert forall|k: u64| #[trigger] l3[lc].contains_key(k) implies l3[lc][k].len() <= mmax by {
                if k != e.0 {
                    assert(layers[lc].contains_key(k));
                }
            }
            lemma_link_back_bound(kernel, m, contents, heuristic, extend_default, keep_default, l3, lc, item, nbrs, j + 1, mmax);
        } else {
            assert forall|k: u64| #[trigger] l1[lc].contains_key(k) implies l1[lc][k].len() <= mmax by {
                if k != e.0 {
                    assert(layers[lc].contains_key(k));
                }
            }
            lemma_link_back_bound(kernel, m, contents, heuristic, extend_default, keep_default, l1, lc, item, nbrs, j + 1, mmax);
        }
    }
}

proof fn lemma_link_down_bound<K: Fn(MetricsName, &[u32], &[u32]) -> Result<u32, VestoError>>(
    kernel: K,
    m: MetricsName,
    contents: Map<u64, Seq<u32>>,
    heuristic: bool,
    extend_default: bool,
    keep_default: bool,
    layers: LayersView,
    query: Seq<u32>,
    item: EntityId,
    ep: Seq<EntityId>,
    lc_next: int,
    mm: nat,
    m_max: nat,
    efc: nat,
    extend_candidates: Option<bool>,
    keep_pruned_connections: Option<bool>,
)
    requires
        1 <= mm <= m_max,
        lc_next <= layers.len(),
        degrees_within(layers, mm, m_max),
        link_down(kernel, m, contents, heuristic, extend_default, keep_default, layers, query, item, ep, lc_next, mm, m_max, efc,
            extend_candidates, keep_pruned_connections) is Ok,
    ensures
        ({
            let l2 = link_down(kernel, m, contents, heuristic, extend_default, keep_default, layers, query, item, ep, lc_next, mm, m_max, efc,
                extend_candidates, keep_pruned_connections)->Ok_0;
            &&& l2.len() == layers.len()
            &&& degrees_within(l2, mm, m_max)
        }),
    decreases lc_next,
{
    if lc_next > 0 {
        let lc = lc_next - 1;
        let mmax: nat = if lc == 0 { 2 * mm } else { m_max };
        let w = beam_outcome(kernel, m, contents, layers, lc, query, efc, ep)->Ok_0;
        let nbrs = select_spec(kernel, m, contents, layers, heuristic, extend_default, keep_default, query, w, mm,
            extend_candidates, keep_pruned_connections)->Ok_0;
        lemma_select_len(kernel, m, contents, layers, heuristic, extend_default, keep_default, query, w, mm,
            extend_candidates, keep_pruned_connections);
        let l1 = layers.update(lc, layers[lc].insert(item.0, ids_seq(nbrs)));
        assert forall|k: u64| #[trigger] l1[lc].contains_key(k) implies l1[lc][k].len() <= mmax by {
            if k != item.0 {
                assert(layers[lc].contains_key(k));
            }
        }
        lemma_link_back_bound(kernel, m, contents, heuristic, extend_default, keep_default, l1, lc, item, nbrs, 0, mmax);
        let l2 = link_back(kernel, m, contents, heuristic, extend_default, keep_default, l1, lc, item, nbrs, 0, mmax)->Ok_0;
        assert forall|l: int, k: u64| 0 <= l < l2.len() && #[trigger] l2[l].contains_key(k) implies l2[l][k].len() <= cap(l, mm, m_max) by {
            if l != lc {
                assert(l2[l] == layers[l]);
            }
        }
        lemma_link_down_bound(kernel, m, contents, heuristic, extend_default, keep_default, l2, query, item, w, lc, mm, m_max, efc,
            extend_candidates, keep_pruned_connections);
    }
}

/// Inserting keeps every neighbour list within its cap (`2 * mm` on the
/// bottom layer, `m_max` above it) when `1 <= mm <= m_max`: a neighbour
/// whose list grows past its cap is re-selected down to it.
pub proof fn law_insert_keeps_degrees<K: Fn(MetricsName, &[u32], &[u32]) -> Result<u32, VestoError>>(
    kernel: K,
    m: MetricsName,
    contents: Map<u64, Seq<u32>>,
    heuristic: bool,
    extend_default: bool,
    keep_default: bool,
    layers: LayersView,
    entry: Option<EntityId>,
    item: EntityId,
    mm: nat,
    m_max: nat,
    efc: nat,
    level: int,
    extend_candidates: Option<bool>,
    keep_pruned_connections: Option<bool>,
)
    requires
        1 <= mm <= m_max,
        0 <= level,
        degrees_within(layers, mm, m_max),
        insert_spec(kernel, m, contents, heuristic, extend_default, keep_default, layers, entry, item, mm, m_max, efc, level,
            extend_candidates, keep_pruned_connections) is Ok,
    ensures
        degrees_within(insert_spec(kernel, m, contents, heuristic, extend_default, keep_default, layers, entry, item, mm, m_max, efc, level,
            extend_candidates, keep_pruned_connections)->Ok_0.0, mm, m_max),
{
    reveal(insert_spec);
    if let Some(e) = entry {
        let query = contents[item.0];
        let top = layers.len() - 1;
        let p = descend(kernel, m, contents, layers, query, e, top, level)->Ok_0;
        let low_top = if top < level { top } else { level };
        lemma_link_down_bound(kernel, m, contents, heuristic, extend_default, keep_default, layers, query, item, seq![p],
            low_top + 1, mm, m_max, efc, extend_candidates, keep_pruned_connections);
        let l2 = link_down(kernel, m, contents, heuristic, extend_default, keep_default, layers, query, item, seq![p],
            low_top + 1, mm, m_max, efc, extend_candidates, keep_pruned_connections)->Ok_0;
        if level > top {
            let r = raise(l2, level, item, e);
            assert forall|l: int, k: u64| 0 <= l < r.len() && #[trigger] r[l].contains_key(k) implies r[l][k].len() <= cap(l, mm, m_max) by {
                if l < l2.len() {
                    assert(r[l] == l2[l]);
                } else {
                    assert(r[l] == Map::<u64, Seq<EntityId>>::empty().insert(item.0, seq![e]));
                }
            }
        }
    }
}

} // verus!
