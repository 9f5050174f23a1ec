use vstd::prelude::*;

use crate::error::VestoError;
use crate::flat::{VestoFlatIndex, score_ids, to_query};
use crate::hnsw::{keeps_nodes, scored_right};
use crate::hnsw_index::{VestoHNSWIndex, inserted_with, levels_ok};
use crate::kernel::kernel_ok;
use crate::metrics::MetricsName;
use crate::ranking::{Scored, sorted_by_score, top_k_by_score};
use crate::store::VestoStore;
use crate::types::EntityId;

verus! {

/// `after` is the index `before` once `data` was inserted (distances by
/// `kernel`, vectors from `contents`, levels drawn by `draw`): an
/// exhaustive index holds the ids after its earlier ones; an HNSW index
/// keeps its settings and nodes, has every id on its bottom layer, and its
/// graph is what inserting the ids one by one at some levels `draw` may
/// give makes of it.
pub open spec fn took<K: Fn(MetricsName, &[u32], &[u32]) -> Result<u32, VestoError>, L: Fn() -> usize>(
    before: VestoIndex,
    after: VestoIndex,
    data: Seq<EntityId>,
    kernel: K,
    draw: L,
    contents: Map<u64, Seq<u32>>,
) -> bool {
    match (before, after) {
        (VestoIndex::Flat(a), VestoIndex::Flat(b)) => {
            &&& b.spec_name() == a.spec_name()
            &&& b.spec_data() == a.spec_data() + data
            &&& b.spec_metric() == a.spec_metric()
        },
        (VestoIndex::Hnsw(a), VestoIndex::Hnsw(b)) => {
            &&& b.spec_name() == a.spec_name()
            &&& b.graph().same_settings(&a.graph())
            &&& b.spec_params(None) == a.spec_params(None)
            &&& keeps_nodes(a.graph().spec_layers(), b.graph().spec_layers())
            &&& forall|i: int| 0 <= i < data.len() ==> #[trigger] b.graph().spec_layers()[0].contains_key(data[i].0)
            &&& exists|levels: Seq<usize>| #[trigger] inserted_with(kernel, draw, a.graph(), contents, data, levels, a.spec_params(None),
                Ok::<(), VestoError>(()), (b.graph().spec_layers(), b.graph().spec_entry()))
        },
        _ => false,
    }
}

/// Inserting `data` into `before` failed with `e`, leaving `after`: only an
/// HNSW index fails, when inserting the ids one by one at some levels
/// `draw` may give ends with that failure.
pub open spec fn failed<K: Fn(MetricsName, &[u32], &[u32]) -> Result<u32, VestoError>, L: Fn() -> usize>(
    before: VestoIndex,
    after: VestoIndex,
    data: Seq<EntityId>,
    kernel: K,
    draw: L,
    contents: Map<u64, Seq<u32>>,
    e: VestoError,
) -> bool {
    match (before, after) {
        (VestoIndex::Hnsw(a), VestoIndex::Hnsw(b)) => exists|levels: Seq<usize>| #[trigger] inserted_with(kernel, draw, a.graph(), contents,
            data, levels, a.spec_params(None), Err::<(), VestoError>(e), (b.graph().spec_layers(), b.graph().spec_entry())),
        _ => false,
    }
}

/// The ids `start`, `start + 1`, ... for `n` entities.
pub open spec fn ids_from(start: u64, n: nat) -> Seq<EntityId> {
    Seq::new(n, |i: int| EntityId((start + i) as u64))
}

/// A list result as a sequence.
pub open spec fn seq_result(r: Result<Vec<Scored>, VestoError>) -> Result<Seq<Scored>, VestoError> {
    match r {
        Ok(v) => Ok(v@),
        Err(e) => Err(e),
    }
}

/// An index of a vector field: exhaustive or HNSW.
pub enum VestoIndex {
    Flat(VestoFlatIndex),
    Hnsw(VestoHNSWIndex),
}

impl VestoIndex {
    pub open spec fn spec_name(&self) -> Seq<char> {
        match self {
            VestoIndex::Flat(f) => f.spec_name(),
            VestoIndex::Hnsw(h) => h.spec_name(),
        }
    }

    /// The index can serve the store: an HNSW graph is well formed, only
    /// mentions stored entities, and its tuning does not overflow.
    pub open spec fn serves(&self, store: &VestoStore) -> bool {
        match self {
            VestoIndex::Flat(_) => true,
            VestoIndex::Hnsw(h) => {
                &&& h.wf()
                &&& h.graph().within(store)
                &&& h.spec_params(None).max_connections <= usize::MAX / 2
            },
        }
    }

    /// The index's name.
    pub fn name(&self) -> (r: String)
        ensures
            r@ == self.spec_name(),
    {
        match self {
            VestoIndex::Flat(f) => f.name(),
            VestoIndex::Hnsw(h) => h.name(),
        }
    }

    /// Adds stored entities to the index (an HNSW index draws a level for
    /// each).
    pub fn insert<K: Fn(MetricsName, &[u32], &[u32]) -> Result<u32, VestoError>, L: Fn() -> usize>(
        &mut self,
        data: Vec<EntityId>,
        store: &VestoStore,
        kernel: &K,
        draw_level: &L,
    ) -> (r: Result<(), VestoError>)
        requires
            old(self).serves(store),
            store.wf(),
            kernel_ok(*kernel),
            levels_ok(*draw_level),
            forall|i: int| 0 <= i < data@.len() ==> store.contents().contains_key((#[trigger] data@[i]).0),
        ensures
            final(self).serves(store),
            final(self).spec_name() == old(self).spec_name(),
            match (*old(self), *final(self)) {
                (VestoIndex::Flat(a), VestoIndex::Flat(b)) => {
                    &&& r is Ok
                    &&& b.spec_data() == a.spec_data() + data@
                    &&& b.spec_metric() == a.spec_metric()
                },
                (VestoIndex::Hnsw(a), VestoIndex::Hnsw(b)) => {
                    &&& b.graph().same_settings(&a.graph())
                    &&& b.spec_params(None) == a.spec_params(None)
                    &&& keeps_nodes(a.graph().spec_layers(), b.graph().spec_layers())
                    &&& r is Ok ==> forall|i: int| 0 <= i < data@.len() ==>
                        #[trigger] b.graph().spec_layers()[0].contains_key(data@[i].0)
                },
                _ => false,
            },
            r is Ok ==> took(*old(self), *final(self), data@, *kernel, *draw_level, store.contents()),
            (*old(self), *final(self)) matches (VestoIndex::Hnsw(a), VestoIndex::Hnsw(b)) ==> exists|levels: Seq<usize>|
                #[trigger] inserted_with(*kernel, *draw_level, a.graph(), store.contents(), data@, levels, a.spec_params(None), r,
                    (b.graph().spec_layers(), b.graph().spec_entry())),
    {
        let ghost dv = data@;
        match &mut *self {
            VestoIndex::Flat(f) => f.insert(data),
            VestoIndex::Hnsw(h) => {
                let ghost a = *h;
                let r = h.insert(data, Some(store), None, kernel, draw_level);
                proof {
                    if r is Ok {
                        let lv = choose|lv: Seq<usize>| #[trigger] inserted_with(*kernel, *draw_level, a.graph(), store.contents(), dv, lv,
                            a.spec_params(None), r, (h.graph().spec_layers(), h.graph().spec_entry()));
                        assert(inserted_with(*kernel, *draw_level, a.graph(), store.contents(), dv, lv,
                            a.spec_params(None), Ok::<(), VestoError>(()), (h.graph().spec_layers(), h.graph().spec_entry())));
                    }
                }
                r
            },
        }
    }

    /// `r` is what a search of the index for the `top_k` nearest entities
    /// to the query gives: for an exhaustive index exactly the `top_k` best
    /// scored entities; for an HNSW index what its k-nearest-neighbour
    /// search gives with its own tuning (`EmptyIndex` when it is empty,
    /// otherwise at most `top_k` stored entities with their distances).
    pub open spec fn answers<K: Fn(MetricsName, &[u32], &[u32]) -> Result<u32, VestoError>>(
        &self,
        store: &VestoStore,
        kernel: K,
        query: Seq<u32>,
        top_k: usize,
        r: Result<Seq<Scored>, VestoError>,
    ) -> bool {
        match self {
            VestoIndex::Flat(f) => match score_ids(f.spec_data(), store.contents(), to_query(kernel, f.spec_metric(), query)) {
                Ok(s) => r == Ok::<Seq<Scored>, VestoError>(top_k_by_score(s, top_k as nat)),
                Err(e) => r == Err::<Seq<Scored>, VestoError>(e),
            },
            VestoIndex::Hnsw(h) => {
                &&& h.graph().spec_entry() is None ==> r == Err::<Seq<Scored>, VestoError>(VestoError::EmptyIndex)
                &&& r matches Ok(v) ==> {
                    &&& v.len() <= top_k
                    &&& forall|i: int| 0 <= i < v.len() ==> scored_right(store.contents(), kernel, h.graph().spec_metric(), query, #[trigger] v[i])
                    &&& sorted_by_score(v)
                }
                &&& r == h.graph().knn_result(store.contents(), kernel, query, top_k as nat, h.spec_params(None).ef_construction as nat)
            },
        }
    }

    /// The `top_k` nearest entities to the query with their distances.
    pub fn search<K: Fn(MetricsName, &[u32], &[u32]) -> Result<u32, VestoError>>(
        &self,
        store: &VestoStore,
        query: &[u32],
        top_k: usize,
        kernel: &K,
    ) -> (r: Result<Vec<Scored>, VestoError>)
        requires
            self.serves(store),
            store.wf(),
            self matches VestoIndex::Flat(f) ==> store.rows_exist_for(f.spec_data()),
            kernel_ok(*kernel),
        ensures
            self.answers(store, *kernel, query@, top_k, seq_result(r)),
    {
        match self {
            VestoIndex::Flat(f) => f.search(store, kernel, query, top_k),
            VestoIndex::Hnsw(h) => h.search(store, query, top_k, None, kernel),
        }
    }
}

impl VestoIndex {
    /// An index that serves a store serves any store holding at least the
    /// same ids.
    pub proof fn lemma_serves_larger(&self, s1: &VestoStore, s2: &VestoStore)
        requires
            self.serves(s1),
            forall|k: u64| #[trigger] s1.contents().contains_key(k) ==> s2.contents().contains_key(k),
        ensures
            self.serves(s2),
    {
        if let VestoIndex::Hnsw(h) = self {
            let ls = h.graph().spec_layers();
            assert forall|l: int, k: u64| 0 <= l < ls.len() && #[trigger] ls[l].contains_key(k) implies s2.contents().contains_key(k) by {
                assert(s1.contents().contains_key(k));
            }
            assert forall|l: int, k: u64, i: int| 0 <= l < ls.len() && ls[l].contains_key(k) && 0 <= i < ls[l][k].len()
                implies s2.contents().contains_key((#[trigger] ls[l][k][i]).0) by {
                assert(s1.contents().contains_key(ls[l][k][i].0));
            }
        }
    }
}

impl VestoIndex {
    /// The index holds nothing yet (an HNSW graph with no layer and a
    /// tuning that does not overflow), so it can serve any store.
    pub open spec fn fresh(&self) -> bool {
        match self {
            VestoIndex::Flat(_) => true,
            VestoIndex::Hnsw(h) => {
                &&& h.wf()
                &&& h.graph().spec_layers().len() == 0
                &&& h.spec_params(None).max_connections <= usize::MAX / 2
            },
        }
    }

    /// A fresh index serves every store.
    pub proof fn lemma_fresh_serves(&self, s: &VestoStore)
        requires
            self.fresh(),
        ensures
            self.serves(s),
    {
    }
}

} // verus!
