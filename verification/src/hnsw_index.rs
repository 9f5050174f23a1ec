use vstd::prelude::*;
use vstd::string::StringExecFns;

use crate::error::VestoError;
use crate::hnsw::{HNSWGraph, LayersView, insert_spec, keeps_nodes, scored_right};
use crate::kernel::kernel_ok;
use crate::metrics::MetricsName;
use crate::params::{JsonParams, member_bool, member_u64, params_view};
use crate::ranking::{Scored, sorted_by_score};
use crate::store::VestoStore;
use crate::types::EntityId;

verus! {

/// The tuning of an HNSW index (the level normalisation factor is kept by
/// whoever draws the levels).
#[derive(Clone, Copy, Debug)]
pub struct VestoHNSWIndexExtraParams {
    /// number of established connections
    pub max_connections: usize,
    /// maximum number of connections for each element per layer
    pub max_connections_per_layer: usize,
    /// size of the dynamic candidate list
    pub ef_construction: usize,
    /// whether neighbours are chosen by the diversity heuristic
    pub use_heuristic_selection: bool,
    /// whether the heuristic adds the candidates' neighbours
    pub extend_candidates: Option<bool>,
    /// whether the heuristic refills from the discarded candidates
    pub keep_pruned_connections: Option<bool>,
}

/// The tuning an index gets when none is given.
pub open spec fn default_params() -> VestoHNSWIndexExtraParams {
    VestoHNSWIndexExtraParams {
        max_connections: 16,
        max_connections_per_layer: 16,
        ef_construction: 100,
        use_heuristic_selection: true,
        extend_candidates: None,
        keep_pruned_connections: None,
    }
}

/// An approximate nearest-neighbour index over an HNSW graph.
pub struct VestoHNSWIndex {
    name: String,
    data: HNSWGraph,
    max_connections: usize,
    max_connections_per_layer: usize,
    ef_construction: usize,
}

/// The tuning read from a parameter object: each member present with the
/// right type overrides the index's setting; the heuristic's two flags are
/// only what the object says.
pub open spec fn params_from(
    max_connections: usize,
    max_connections_per_layer: usize,
    ef_construction: usize,
    use_heuristic_selection: bool,
    params: Option<Seq<(Seq<char>, crate::params::JsonScalar)>>,
) -> VestoHNSWIndexExtraParams {
    match params {
        None => VestoHNSWIndexExtraParams {
            max_connections,
            max_connections_per_layer,
            ef_construction,
            use_heuristic_selection,
            extend_candidates: None,
            keep_pruned_connections: None,
        },
        Some(f) => VestoHNSWIndexExtraParams {
            max_connections: match member_u64(f, "max_connections"@) { Some(v) => v as usize, None => max_connections },
            max_connections_per_layer: match member_u64(f, "max_connections_per_layer"@) {
                Some(v) => v as usize,
                None => max_connections_per_layer,
            },
            ef_construction: match member_u64(f, "ef_construction"@) { Some(v) => v as usize, None => ef_construction },
            use_heuristic_selection: match member_bool(f, "use_heuristic_selection"@) {
                Some(v) => v,
                None => use_heuristic_selection,
            },
            extend_candidates: member_bool(f, "extend_candidates"@),
            keep_pruned_connections: member_bool(f, "keep_pruned_connections"@),
        },
    }
}

/// The members of an optional parameter object.
pub open spec fn opt_params_view(params: Option<&JsonParams>) -> Option<Seq<(Seq<char>, crate::params::JsonScalar)>> {
    match params {
        None => None,
        Some(p) => Some(params_view(*p)),
    }
}

/// A level drawer that always gives a usable level.
pub open spec fn levels_ok<L: Fn() -> usize>(draw: L) -> bool {
    &&& call_requires(draw, ())
    &&& forall|l: usize| #[trigger] call_ensures(draw, (), l) ==> l < usize::MAX
}

/// Inserting the first `n` of `data` one by one, the `i`-th at level
/// `levels[i]`, into a graph with these layers, entry point and settings:
/// its layers and entry point afterwards, or the first failure.
pub open spec fn insert_all<K: Fn(MetricsName, &[u32], &[u32]) -> Result<u32, VestoError>>(
    kernel: K,
    g: HNSWGraph,
    contents: Map<u64, Seq<u32>>,
    layers: LayersView,
    entry: Option<EntityId>,
    data: Seq<EntityId>,
    levels: Seq<usize>,
    n: int,
    p: VestoHNSWIndexExtraParams,
) -> Result<(LayersView, Option<EntityId>), VestoError>
    decreases n,
{
    if n <= 0 {
        Ok((layers, entry))
    } else {
        match insert_all(kernel, g, contents, layers, entry, data, levels, n - 1, p) {
            Err(e) => Err(e),
            Ok((l, e)) => insert_spec(kernel, g.spec_metric(), contents, g.spec_heuristic(), g.spec_extend(), g.spec_keep_pruned(),
                l, e, data[n - 1], p.max_connections as nat, p.max_connections_per_layer as nat, p.ef_construction as nat,
                levels[n - 1] as int, p.extend_candidates, p.keep_pruned_connections),
        }
    }
}

/// `levels` are levels that `draw` may give, one for each id inserted, and
/// inserting `data` with them ends as `r` says: with all of them and the
/// graph `after` on success, or with the failure of the last one tried.
pub open spec fn inserted_with<K: Fn(MetricsName, &[u32], &[u32]) -> Result<u32, VestoError>, L: Fn() -> usize>(
    kernel: K,
    draw: L,
    g: HNSWGraph,
    contents: Map<u64, Seq<u32>>,
    data: Seq<EntityId>,
    levels: Seq<usize>,
    p: VestoHNSWIndexExtraParams,
    r: Result<(), VestoError>,
    after: (LayersView, Option<EntityId>),
) -> bool {
    &&& levels.len() <= data.len()
    &&& forall|i: int| 0 <= i < levels.len() ==> call_ensures(draw, (), #[trigger] levels[i])
    &&& match r {
        Ok(_) => levels.len() == data.len() && insert_all(kernel, g, contents, g.spec_layers(), g.spec_entry(), data, levels,
            levels.len() as int, p) == Ok::<(LayersView, Option<EntityId>), VestoError>(after),
        Err(e) => insert_all(kernel, g, contents, g.spec_layers(), g.spec_entry(), data, levels, levels.len() as int, p)
            == Err::<(LayersView, Option<EntityId>), VestoError>(e),
    }
}

/// Only the first `n` levels matter to inserting the first `n` ids.
proof fn lemma_insert_all_prefix<K: Fn(MetricsName, &[u32], &[u32]) -> Result<u32, VestoError>>(
    kernel: K,
    g: HNSWGraph,
    contents: Map<u64, Seq<u32>>,
    layers: LayersView,
    entry: Option<EntityId>,
    data: Seq<EntityId>,
    a: Seq<usize>,
    b: Seq<usize>,
    n: int,
    p: VestoHNSWIndexExtraParams,
)
    requires
        n <= a.len(),
        n <= b.len(),
        forall|i: int| 0 <= i < n ==> a[i] == b[i],
    ensures
        insert_all(kernel, g, contents, layers, entry, data, b, n, p) == insert_all(kernel, g, contents, layers, entry, data, a, n, p),
    decreases n,
{
    if n > 0 {
        lemma_insert_all_prefix(kernel, g, contents, layers, entry, data, a, b, n - 1, p);
    }
}

impl VestoHNSWIndex {
    pub closed spec fn spec_name(&self) -> Seq<char> {
        self.name@
    }

    /// The graph.
    pub closed spec fn graph(&self) -> HNSWGraph {
        self.data
    }

    pub closed spec fn spec_max_connections(&self) -> usize {
        self.max_connections
    }

    pub closed spec fn spec_max_connections_per_layer(&self) -> usize {
        self.max_connections_per_layer
    }

    pub closed spec fn spec_ef_construction(&self) -> usize {
        self.ef_construction
    }

    /// The tuning that a parameter object gives for this index.
    pub open spec fn spec_params(&self, params: Option<&JsonParams>) -> VestoHNSWIndexExtraParams {
        params_from(
            self.spec_max_connections(),
            self.spec_max_connections_per_layer(),
            self.spec_ef_construction(),
            self.graph().spec_heuristic(),
            opt_params_view(params),
        )
    }

    pub open spec fn wf(&self) -> bool {
        self.graph().wf()
    }

    /// An empty index; without a tuning it takes the defaults (16
    /// connections, 16 per layer, a candidate list of 100, the heuristic on,
    /// not extending candidates, keeping pruned connections).
    pub fn new(name: &str, metric_name: MetricsName, extra: Option<VestoHNSWIndexExtraParams>) -> (r: Self)
        ensures
            r.wf(),
            r.spec_name() == name@,
            r.graph().spec_layers().len() == 0,
            r.graph().spec_metric() == metric_name,
            ({
                let e = match extra { Some(x) => x, None => default_params() };
                &&& r.spec_max_connections() == e.max_connections
                &&& r.spec_max_connections_per_layer() == e.max_connections_per_layer
                &&& r.spec_ef_construction() == e.ef_construction
                &&& r.graph().spec_heuristic() == e.use_heuristic_selection
                &&& r.graph().spec_extend() == e.extend_candidates.unwrap_or(false)
                &&& r.graph().spec_keep_pruned() == e.keep_pruned_connections.unwrap_or(true)
            }),
    {
        let extra = match extra {
            Some(x) => x,
            None => VestoHNSWIndexExtraParams {
                max_connections: 16,
                max_connections_per_layer: 16,
                ef_construction: 100,
                use_heuristic_selection: true,
                extend_candidates: None,
                keep_pruned_connections: None,
            },
        };
        let extend = match extra.extend_candidates { Some(b) => b, None => false };
        let keep = match extra.keep_pruned_connections { Some(b) => b, None => true };
        Self {
            name: String::from_str(name),
            data: HNSWGraph::new(metric_name, extra.use_heuristic_selection, extend, keep),
            ef_construction: extra.ef_construction,
            max_connections: extra.max_connections,
            max_connections_per_layer: extra.max_connections_per_layer,
        }
    }

    /// The number of layers.
    pub fn len(&self) -> (n: usize)
        ensures
            n == self.graph().spec_layers().len(),
    {
        self.data.num_layers()
    }

    /// Whether the graph has no layer.
    pub fn is_empty(&self) -> (b: bool)
        ensures
            b == (self.graph().spec_layers().len() == 0),
    {
        self.data.num_layers() == 0
    }

    /// The index's name.
    pub fn name(&self) -> (r: String)
        ensures
            r@ == self.spec_name(),
    {
        self.name.clone()
    }

    /// The tuning for an insert or search: the index's own, overridden by
    /// the members of the parameter object.
    pub fn extract_from_json_params(&self, params: Option<&JsonParams>) -> (r: VestoHNSWIndexExtraParams)
        ensures
            r == self.spec_params(params),
    {
        match params {
            None => VestoHNSWIndexExtraParams {
                max_connections: self.max_connections,
                max_connections_per_layer: self.max_connections_per_layer,
                ef_construction: self.ef_construction,
                use_heuristic_selection: self.data.heuristic(),
                extend_candidates: None,
                keep_pruned_connections: None,
            },
            Some(p) => {
                let max_connections = match p.get_u64("max_connections") {
                    Some(v) => v as usize,
                    None => self.max_connections,
                };
                let max_connections_per_layer = match p.get_u64("max_connections_per_layer") {
                    Some(v) => v as usize,
                    None => self.max_connections_per_layer,
                };
                let ef_construction = match p.get_u64("ef_construction") {
                    Some(v) => v as usize,
                    None => self.ef_construction,
                };
                let use_heuristic_selection = match p.get_bool("use_heuristic_selection") {
                    Some(v) => v,
                    None => self.data.heuristic(),
                };
                let extend_candidates = p.get_bool("extend_candidates");
                let keep_pruned_connections = p.get_bool("keep_pruned_connections");
                VestoHNSWIndexExtraParams {
                    max_connections,
                    max_connections_per_layer,
                    ef_construction,
                    use_heuristic_selection,
                    extend_candidates,
                    keep_pruned_connections,
                }
            },
        }
    }

    /// Inserts stored entities one by one, each at a level drawn from
    /// `draw_level`, with the tuning the parameters give. Without a store it
    /// fails with `RequiredParameterMissing` naming "store".
    pub fn insert<K: Fn(MetricsName, &[u32], &[u32]) -> Result<u32, VestoError>, L: Fn() -> usize>(
        &mut self,
        data: Vec<EntityId>,
        store: Option<&VestoStore>,
        params: Option<&JsonParams>,
        kernel: &K,
        draw_level: &L,
    ) -> (r: Result<(), VestoError>)
        requires
            old(self).wf(),
            kernel_ok(*kernel),
            levels_ok(*draw_level),
            old(self).spec_params(params).max_connections <= usize::MAX / 2,
            store matches Some(s) ==> {
                &&& s.wf()
                &&& old(self).graph().within(s)
                &&& forall|i: int| 0 <= i < data@.len() ==> s.contents().contains_key((#[trigger] data@[i]).0)
            },
        ensures
            final(self).wf(),
            final(self).spec_name() == old(self).spec_name(),
            final(self).graph().same_settings(&old(self).graph()),
            final(self).spec_max_connections() == old(self).spec_max_connections(),
            final(self).spec_max_connections_per_layer() == old(self).spec_max_connections_per_layer(),
            final(self).spec_ef_construction() == old(self).spec_ef_construction(),
            keeps_nodes(old(self).graph().spec_layers(), final(self).graph().spec_layers()),
            store matches Some(s) ==> final(self).graph().within(s),
            store is None ==> (r matches Err(VestoError::RequiredParameterMissing { param }) && param@ == "store"@) && *final(self) == *old(self),
            r is Ok ==> forall|i: int| 0 <= i < data@.len() ==>
                #[trigger] final(self).graph().spec_layers()[0].contains_key(data@[i].0),
            r is Ok && data@.len() > 0 ==> final(self).graph().spec_layers().len() > 0,
            data@.len() == 0 ==> final(self).graph().spec_layers() == old(self).graph().spec_layers(),
            store matches Some(s) ==> exists|levels: Seq<usize>| #[trigger] inserted_with(*kernel, *draw_level, old(self).graph(), s.contents(),
                data@, levels, old(self).spec_params(params), r, (final(self).graph().spec_layers(), final(self).graph().spec_entry())),
    {
        let st = match store {
            Some(s) => s,
            None => {
                let param = String::from_str("store");
                proof {
                    reveal_strlit("store");
                }
                return Err(VestoError::RequiredParameterMissing { param });
            },
        };
        let p = self.extract_from_json_params(params);
        let ghost g0 = self.graph();
        let ghost contents = st.contents();
        let ghost mut levels: Seq<usize> = Seq::empty();
        let mut i: usize = 0;
        while i < data.len()
            invariant
                g0 == old(self).graph(),
                contents == st.contents(),
                p == old(self).spec_params(params),
                levels.len() == i,
                forall|j: int| 0 <= j < levels.len() ==> call_ensures(*draw_level, (), #[trigger] levels[j]),
                insert_all(*kernel, g0, contents, g0.spec_layers(), g0.spec_entry(), data@, levels, i as int, p)
                    == Ok::<(LayersView, Option<EntityId>), VestoError>((self.graph().spec_layers(), self.graph().spec_entry())),
                self.wf(),
                store == Some(st),
                st.wf(),
                self.graph().within(st),
                kernel_ok(*kernel),
                levels_ok(*draw_level),
                p.max_connections <= usize::MAX / 2,
                i <= data@.len(),
                self.spec_name() == old(self).spec_name(),
                self.graph().same_settings(&old(self).graph()),
                self.max_connections == old(self).max_connections,
                self.max_connections_per_layer == old(self).max_connections_per_layer,
                self.ef_construction == old(self).ef_construction,
                keeps_nodes(old(self).graph().spec_layers(), self.graph().spec_layers()),
                forall|j: int| 0 <= j < data@.len() ==> st.contents().contains_key((#[trigger] data@[j]).0),
                forall|j: int| 0 <= j < i ==> #[trigger] self.graph().spec_layers()[0].contains_key(data@[j].0),
                i > 0 ==> self.graph().spec_layers().len() > 0,
            decreases data.len() - i,
        {
            let id = data[i];
            let level = draw_level();
            let ghost before = self.graph().spec_layers();
            let ghost prev = levels;
            proof {
                levels = levels.push(level);
                assert(levels.drop_last() =~= prev);
                assert(forall|j: int| 0 <= j < levels.len() ==> call_ensures(*draw_level, (), #[trigger] levels[j])) by {
                    assert forall|j: int| 0 <= j < levels.len() implies call_ensures(*draw_level, (), #[trigger] levels[j]) by {
                        if j < prev.len() {
                            assert(levels[j] == prev[j]);
                        }
                    }
                }
                assert(insert_all(*kernel, g0, contents, g0.spec_layers(), g0.spec_entry(), data@, levels, i as int, p)
                    == insert_all(*kernel, g0, contents, g0.spec_layers(), g0.spec_entry(), data@, prev, i as int, p)) by {
                    lemma_insert_all_prefix(*kernel, g0, contents, g0.spec_layers(), g0.spec_entry(), data@, prev, levels, i as int, p);
                }
            }
            let ghost gb = self.graph();
            match self.data.insert(st, kernel, id, p.max_connections, p.max_connections_per_layer, p.ef_construction,
                level, p.extend_candidates, p.keep_pruned_connections) {
                Ok(_) => {},
                Err(e) => {
                    proof {
                        assert(insert_all(*kernel, g0, contents, g0.spec_layers(), g0.spec_entry(), data@, levels, i + 1, p)
                            == Err::<(LayersView, Option<EntityId>), VestoError>(e));
                        assert(store->Some_0.contents() == st.contents());
                        assert(inserted_with(*kernel, *draw_level, old(self).graph(), st.contents(), data@, levels, old(self).spec_params(params),
                            Err::<(), VestoError>(e), (self.graph().spec_layers(), self.graph().spec_entry())));
                    }
                    return Err(e);
                },
            }
            proof {
                assert(insert_all(*kernel, g0, contents, g0.spec_layers(), g0.spec_entry(), data@, levels, i + 1, p)
                    == Ok::<(LayersView, Option<EntityId>), VestoError>((self.graph().spec_layers(), self.graph().spec_entry())));
            }
            proof {
                assert forall|j: int| 0 <= j < i + 1 implies #[trigger] self.graph().spec_layers()[0].contains_key(data@[j].0) by {
                    if j < i {
                        assert(before[0].contains_key(data@[j].0));
                    }
                }
            }
            i = i + 1;
        }
        proof {
            assert(store->Some_0.contents() == st.contents());
            assert(inserted_with(*kernel, *draw_level, old(self).graph(), st.contents(), data@, levels, old(self).spec_params(params),
                Ok::<(), VestoError>(()), (self.graph().spec_layers(), self.graph().spec_entry())));
        }
        Ok(())
    }

    /// The `top_k` nearest neighbours of the query found in the graph, each
    /// with its distance, with the tuning the parameters give. Fails with
    /// `EmptyIndex` when nothing was inserted.
    pub fn search<K: Fn(MetricsName, &[u32], &[u32]) -> Result<u32, VestoError>>(
        &self,
        store: &VestoStore,
        query: &[u32],
        top_k: usize,
        params: Option<&JsonParams>,
        kernel: &K,
    ) -> (r: Result<Vec<Scored>, VestoError>)
        requires
            self.wf(),
            store.wf(),
            self.graph().within(store),
            kernel_ok(*kernel),
        ensures
            self.graph().spec_entry() is None ==> r == Err::<Vec<Scored>, VestoError>(VestoError::EmptyIndex),
            r matches Ok(v) ==> {
                &&& v@.len() <= top_k
                &&& forall|i: int| 0 <= i < v@.len() ==> scored_right(store.contents(), *kernel, self.graph().spec_metric(), query@, #[trigger] v@[i])
                &&& sorted_by_score(v@)
            },
            r matches Ok(v) ==> self.graph().knn_result(store.contents(), *kernel, query@, top_k as nat, self.spec_params(params).ef_construction as nat)
                == Ok::<Seq<Scored>, VestoError>(v@),
            r matches Err(e) ==> self.graph().knn_result(store.contents(), *kernel, query@, top_k as nat, self.spec_params(params).ef_construction as nat)
                == Err::<Seq<Scored>, VestoError>(e),
    {
        let p = self.extract_from_json_params(params);
        self.data.knn_search(store, kernel, query, top_k, p.ef_construction)
    }
}

} // verus!
