use std::collections::HashMap;
use std::collections::HashSet;
use vstd::prelude::*;

use crate::error::VestoError;
use crate::flat::{lemma_score_ids_props, score_entities, score_ids, to_query};
use crate::kernel::{distance, kernel_ok, kernel_value};
use crate::metrics::{Metric, MetricsName, float_less, float_lt, infinity, spec_infinity, total_key, total_less};
use crate::ranking::{Scored, lemma_stable_sort_multiset, lemma_top_k_props, rank_top_k, sort_by_score, sorted_by_score, stable_sort_by_score, top_k_by_score};
use crate::store::VestoStore;
use crate::types::EntityId;

verus! {

broadcast use vstd::std_specs::hash::group_hash_axioms;

/// One layer of the graph: each node's neighbours.
pub struct Layer {
    adjacency: HashMap<u64, Vec<EntityId>>,
}

/// The layers of a graph, each as a map from node to its neighbour list.
pub type LayersView = Seq<Map<u64, Seq<EntityId>>>;

/// The neighbours of `id` on layer `l` (none when it is not a node there).
pub open spec fn neighbours(layers: LayersView, l: int, id: u64) -> Seq<EntityId> {
    if layers[l].contains_key(id) { layers[l][id] } else { Seq::empty() }
}

/// `x` is a neighbour of some node on layer `l`.
pub open spec fn linked_at(layers: LayersView, l: int, x: EntityId) -> bool {
    exists|k: u64| #[trigger] layers[l].contains_key(k) && layers[l][k].contains(x)
}

/// Everything the layers mention (nodes and neighbours) satisfies `p`.
pub open spec fn mentions_within(layers: LayersView, p: spec_fn(u64) -> bool) -> bool {
    &&& forall|l: int, k: u64| 0 <= l < layers.len() && #[trigger] layers[l].contains_key(k) ==> p(k)
    &&& forall|l: int, k: u64, i: int| 0 <= l < layers.len() && layers[l].contains_key(k) && 0 <= i < layers[l][k].len()
        ==> p(#[trigger] layers[l][k][i].0)
}

/// The graph's shape: it has layers exactly when it has an entry point, and
/// the entry point is on every layer.
pub open spec fn graph_wf(layers: LayersView, entry: Option<EntityId>) -> bool {
    &&& (layers.len() == 0 <==> entry is None)
    &&& (entry matches Some(e) ==> forall|l: int| 0 <= l < layers.len() ==> #[trigger] layers[l].contains_key(e.0))
}

/// A hierarchical navigable small-world graph over the entities of a store.
pub struct HNSWGraph {
    layers: Vec<Layer>,
    metric: Metric,
    entry_point: Option<EntityId>,
    use_heuristic_selection: bool,
    heuristic_keep_pruned_connections: bool,
    heuristic_extend_candidates: bool,
}

impl HNSWGraph {
    /// The layers, bottom first.
    pub closed spec fn spec_layers(&self) -> LayersView {
        self.layers@.map_values(|l: Layer| l.adjacency@.map_values(|v: Vec<EntityId>| v@))
    }

    /// The node searches start from.
    pub closed spec fn spec_entry(&self) -> Option<EntityId> {
        self.entry_point
    }

    pub closed spec fn spec_metric(&self) -> MetricsName {
        self.metric.spec_name()
    }

    /// Whether neighbours are chosen by the diversity heuristic.
    pub closed spec fn spec_heuristic(&self) -> bool {
        self.use_heuristic_selection
    }

    /// The heuristic's default for adding the candidates' neighbours.
    pub closed spec fn spec_extend(&self) -> bool {
        self.heuristic_extend_candidates
    }

    /// The heuristic's default for refilling from the discarded candidates.
    pub closed spec fn spec_keep_pruned(&self) -> bool {
        self.heuristic_keep_pruned_connections
    }

    pub open spec fn wf(&self) -> bool {
        graph_wf(self.spec_layers(), self.spec_entry())
    }

    /// Every node and neighbour the graph mentions is in the store.
    pub open spec fn within(&self, store: &VestoStore) -> bool {
        mentions_within(self.spec_layers(), |k: u64| store.contents().contains_key(k))
    }

    /// An empty graph.
    pub fn new(metric_name: MetricsName, use_heuristic_selection: bool, extend_candidates: bool, keep_pruned_connections: bool) -> (g: Self)
        ensures
            g.wf(),
            g.spec_layers().len() == 0,
            g.spec_entry() is None,
            g.spec_metric() == metric_name,
            g.spec_heuristic() == use_heuristic_selection,
            g.spec_extend() == extend_candidates,
            g.spec_keep_pruned() == keep_pruned_connections,
    {
        let g = HNSWGraph {
            layers: Vec::new(),
            metric: Metric::new(metric_name),
            entry_point: None,
            use_heuristic_selection,
            heuristic_keep_pruned_connections: keep_pruned_connections,
            heuristic_extend_candidates: extend_candidates,
        };
        assert(g.spec_layers() =~= Seq::<Map<u64, Seq<EntityId>>>::empty());
        g
    }

    /// Switches neighbour selection between the heuristic and the plain
    /// nearest-first choice.
    pub fn set_use_heuristic_selection(&mut self, on: bool)
        ensures
            final(self).spec_heuristic() == on,
            final(self).spec_layers() == old(self).spec_layers(),
            final(self).spec_entry() == old(self).spec_entry(),
            final(self).spec_metric() == old(self).spec_metric(),
            final(self).spec_extend() == old(self).spec_extend(),
            final(self).spec_keep_pruned() == old(self).spec_keep_pruned(),
    {
        self.use_heuristic_selection = on;
    }

    /// Whether neighbours are chosen by the diversity heuristic.
    pub fn heuristic(&self) -> (b: bool)
        ensures
            b == self.spec_heuristic(),
    {
        self.use_heuristic_selection
    }

    /// The number of layers.
    pub fn num_layers(&self) -> (n: usize)
        ensures
            n == self.spec_layers().len(),
    {
        self.layers.len()
    }

    /// The entry point.
    pub fn entry_point(&self) -> (e: Option<EntityId>)
        ensures
            e == self.spec_entry(),
    {
        self.entry_point
    }

    /// The neighbours of `id` on layer `l`.
    pub fn neighbourhood(&self, id: &EntityId, l: usize) -> (r: &[EntityId])
        requires
            l < self.spec_layers().len(),
        ensures
            r@ == neighbours(self.spec_layers(), l as int, id.0),
    {
        match self.layers[l].adjacency.get(&id.0) {
            Some(v) => v.as_slice(),
            None => &[],
        }
    }

    /// Starts the graph with its first node, on layers 0 to `l`.
    fn fresh_start_insert(&mut self, item: EntityId, l: usize) -> (r: Result<(), VestoError>)
        requires
            old(self).wf(),
            old(self).spec_entry() is None,
            l < usize::MAX,
        ensures
            r is Ok,
            final(self).wf(),
            final(self).spec_entry() == Some(item),
            final(self).spec_layers().len() == l + 1,
            forall|lc: int| 0 <= lc <= l ==> final(self).spec_layers()[lc] == Map::<u64, Seq<EntityId>>::empty().insert(item.0, Seq::empty()),
            final(self).spec_metric() == old(self).spec_metric(),
            final(self).spec_heuristic() == old(self).spec_heuristic(),
            final(self).spec_extend() == old(self).spec_extend(),
            final(self).spec_keep_pruned() == old(self).spec_keep_pruned(),
    {
        let ghost single = Map::<u64, Seq<EntityId>>::empty().insert(item.0, Seq::empty());
        let mut lc: usize = 0;
        while lc <= l
            invariant
                lc <= l + 1,
                l < usize::MAX,
                single == Map::<u64, Seq<EntityId>>::empty().insert(item.0, Seq::empty()),
                self.entry_point is None,
                self.metric == old(self).metric,
                self.use_heuristic_selection == old(self).use_heuristic_selection,
                self.heuristic_extend_candidates == old(self).heuristic_extend_candidates,
                self.heuristic_keep_pruned_connections == old(self).heuristic_keep_pruned_connections,
                self.spec_layers().len() == lc,
                forall|i: int| 0 <= i < lc ==> #[trigger] self.spec_layers()[i] == single,
            decreases l + 1 - lc,
        {
            let mut adjacency: HashMap<u64, Vec<EntityId>> = HashMap::new();
            let no_neighbours: Vec<EntityId> = Vec::new();
            adjacency.insert(item.0, no_neighbours);
            let layer = Layer { adjacency };
            proof {
                assert(layer.adjacency@[item.0]@ =~= Seq::<EntityId>::empty());
                assert(layer.adjacency@.map_values(|v: Vec<EntityId>| v@) =~= single);
            }
            let ghost before = self.spec_layers();
            self.layers.push(layer);
            proof {
                assert(self.spec_layers() =~= before.push(single));
            }
            lc = lc + 1;
        }
        self.entry_point = Some(item);
        proof {
            let ls = self.spec_layers();
            assert forall|i: int| 0 <= i < ls.len() implies #[trigger] ls[i].contains_key(item.0) by {
                assert(ls[i] == single);
            }
        }
        Ok(())
    }
}


/// The position of the first best (lowest) score among the first `n`
/// entries.
pub open spec fn min_index(s: Seq<Scored>, n: int) -> int
    decreases n,
{
    if n <= 1 {
        0
    } else {
        let b = min_index(s, n - 1);
        if total_key(s[n - 1].0) < total_key(s[b].0) { n - 1 } else { b }
    }
}

/// The position of the first worst (highest) score among the first `n`
/// entries.
pub open spec fn max_index(s: Seq<Scored>, n: int) -> int
    decreases n,
{
    if n <= 1 {
        0
    } else {
        let b = max_index(s, n - 1);
        if total_key(s[b].0) < total_key(s[n - 1].0) { n - 1 } else { b }
    }
}

/// `s` without its entry at `i`, the last entry taking its place.
pub open spec fn swap_out(s: Seq<Scored>, i: int) -> Seq<Scored> {
    s.update(i, s.last()).drop_last()
}

/// The worst score held, or positive infinity when there is none.
pub open spec fn worst_of(s: Seq<Scored>) -> u32 {
    if s.len() == 0 { spec_infinity() } else { s[max_index(s, s.len() as int)].0 }
}

pub(crate) proof fn lemma_min_index_props(s: Seq<Scored>, n: int)
    requires
        1 <= n <= s.len(),
    ensures
        0 <= min_index(s, n) < n,
        forall|i: int| 0 <= i < n ==> total_key(s[min_index(s, n)].0) <= total_key(#[trigger] s[i].0),
    decreases n,
{
    if n > 1 {
        lemma_min_index_props(s, n - 1);
    }
}

pub(crate) proof fn lemma_max_index_props(s: Seq<Scored>, n: int)
    requires
        1 <= n <= s.len(),
    ensures
        0 <= max_index(s, n) < n,
        forall|i: int| 0 <= i < n ==> total_key(#[trigger] s[i].0) <= total_key(s[max_index(s, n)].0),
    decreases n,
{
    if n > 1 {
        lemma_max_index_props(s, n - 1);
    }
}

/// The position of the first best (lowest) score.
fn min_pos(v: &Vec<Scored>) -> (r: usize)
    requires
        v@.len() > 0,
    ensures
        r == min_index(v@, v@.len() as int),
        r < v@.len(),
        forall|i: int| 0 <= i < v@.len() ==> total_key(v@[r as int].0) <= total_key(#[trigger] v@[i].0),
{
    let mut best: usize = 0;
    let mut i: usize = 1;
    while i < v.len()
        invariant
            1 <= i <= v@.len(),
            best < i,
            best == min_index(v@, i as int),
        decreases v.len() - i,
    {
        if total_less(v[i].0, v[best].0) {
            best = i;
        }
        i = i + 1;
    }
    proof {
        lemma_min_index_props(v@, v@.len() as int);
    }
    best
}

/// The position of the first worst (highest) score.
fn max_pos(v: &Vec<Scored>) -> (r: usize)
    requires
        v@.len() > 0,
    ensures
        r == max_index(v@, v@.len() as int),
        r < v@.len(),
        forall|i: int| 0 <= i < v@.len() ==> total_key(#[trigger] v@[i].0) <= total_key(v@[r as int].0),
{
    let mut best: usize = 0;
    let mut i: usize = 1;
    while i < v.len()
        invariant
            1 <= i <= v@.len(),
            best < i,
            best == max_index(v@, i as int),
        decreases v.len() - i,
    {
        if total_less(v[best].0, v[i].0) {
            best = i;
        }
        i = i + 1;
    }
    proof {
        lemma_max_index_props(v@, v@.len() as int);
    }
    best
}

/// The worst score held, or positive infinity when there is none.
fn furthest(v: &Vec<Scored>) -> (d: u32)
    ensures
        d == worst_of(v@),
        v@.len() > 0 ==> exists|i: int| 0 <= i < v@.len() && d == #[trigger] v@[i].0
            && forall|j: int| 0 <= j < v@.len() ==> total_key(#[trigger] v@[j].0) <= total_key(d),
{
    if v.len() == 0 {
        infinity()
    } else {
        let p = max_pos(v);
        v[p].0
    }
}

/// Removes and returns the entry at a position; the last entry takes its
/// place.
fn take_at(v: &mut Vec<Scored>, i: usize) -> (x: Scored)
    requires
        i < old(v)@.len(),
    ensures
        x == old(v)@[i as int],
        final(v)@ == swap_out(old(v)@, i as int),
        final(v)@.len() == old(v)@.len() - 1,
        forall|j: int| 0 <= j < final(v)@.len() ==> old(v)@.contains(#[trigger] final(v)@[j]),
{
    let ghost before = v@;
    let x = v.swap_remove(i);
    proof {
        let after = v@;
        assert forall|j: int| 0 <= j < after.len() implies before.contains(#[trigger] after[j]) by {
            if j == i {
                assert(after[j] == before[before.len() - 1]);
            } else {
                assert(after[j] == before[j]);
            }
        }
    }
    x
}


/// No id occurs twice.
pub open spec fn distinct_ids(s: Seq<EntityId>) -> bool {
    forall|a: int, b: int| 0 <= a < b < s.len() ==> s[a] != s[b]
}

/// No id occurs twice among scored entries.
pub open spec fn distinct_scored(s: Seq<Scored>) -> bool {
    forall|a: int, b: int| 0 <= a < b < s.len() ==> (#[trigger] s[a]).1 != (#[trigger] s[b]).1
}

pub(crate) proof fn lemma_swap_out_distinct(s: Seq<Scored>, i: int)
    requires
        0 <= i < s.len(),
        distinct_scored(s),
    ensures
        distinct_scored(swap_out(s, i)),
{
    let t = swap_out(s, i);
    assert forall|a: int, b: int| 0 <= a < b < t.len() implies (#[trigger] t[a]).1 != (#[trigger] t[b]).1 by {
        let pa = if a == i { s.len() - 1 } else { a };
        let pb = if b == i { s.len() - 1 } else { b };
        assert(t[a] == s[pa]);
        assert(t[b] == s[pb]);
        assert(pa != pb);
        if pa < pb {
            assert(s[pa].1 != s[pb].1);
        } else {
            assert(s[pb].1 != s[pa].1);
        }
    }
}

/// The distance of an entity's stored vector to the query (`KeyNotFound`
/// when the store lacks it).
pub open spec fn dist_to<K: Fn(MetricsName, &[u32], &[u32]) -> Result<u32, VestoError>>(
    kernel: K,
    m: MetricsName,
    contents: Map<u64, Seq<u32>>,
    query: Seq<u32>,
    e: EntityId,
) -> Result<u32, VestoError> {
    if contents.contains_key(e.0) { kernel_value(kernel, m, contents[e.0], query) } else { Err(VestoError::KeyNotFound) }
}

/// The state of a beam search on a layer: the visited nodes, the
/// candidates still to expand, the entities found, and whether it is over.
pub type BeamState = (Set<u64>, Seq<Scored>, Seq<Scored>, bool);

/// The start of a beam search: the first `n` entry points are visited and,
/// scored, are both the candidates and the entities found.
pub open spec fn beam_start<K: Fn(MetricsName, &[u32], &[u32]) -> Result<u32, VestoError>>(
    kernel: K,
    m: MetricsName,
    contents: Map<u64, Seq<u32>>,
    query: Seq<u32>,
    ep: Seq<EntityId>,
    n: int,
) -> Result<BeamState, VestoError>
    decreases n,
{
    if n <= 0 {
        Ok((Set::empty(), Seq::empty(), Seq::empty(), false))
    } else {
        match beam_start(kernel, m, contents, query, ep, n - 1) {
            Err(e) => Err(e),
            Ok(s) => match dist_to(kernel, m, contents, query, ep[n - 1]) {
                Err(e) => Err(e),
                Ok(d) => Ok((s.0.insert(ep[n - 1].0), s.1.push((d, ep[n - 1])), s.2.push((d, ep[n - 1])), false)),
            },
        }
    }
}

/// Visiting the neighbours `nb[k..]` of an expanded candidate in order:
/// each node not yet visited is marked and scored, and kept (as a candidate
/// and as found) when it is nearer than the worst found or fewer than `ef`
/// are found; past `ef` found entities the (first) worst is dropped.
pub open spec fn beam_visit<K: Fn(MetricsName, &[u32], &[u32]) -> Result<u32, VestoError>>(
    kernel: K,
    m: MetricsName,
    contents: Map<u64, Seq<u32>>,
    query: Seq<u32>,
    ef: nat,
    nb: Seq<EntityId>,
    k: int,
    s: BeamState,
) -> Result<BeamState, VestoError>
    decreases nb.len() - k,
{
    if k >= nb.len() {
        Ok(s)
    } else {
        let e = nb[k];
        if s.0.contains(e.0) {
            beam_visit(kernel, m, contents, query, ef, nb, k + 1, s)
        } else {
            match dist_to(kernel, m, contents, query, e) {
                Err(err) => Err(err),
                Ok(d) => {
                    let visited = s.0.insert(e.0);
                    if float_lt(d, worst_of(s.2)) || s.2.len() < ef {
                        let found = s.2.push((d, e));
                        let kept = if found.len() > ef { swap_out(found, max_index(found, found.len() as int)) } else { found };
                        beam_visit(kernel, m, contents, query, ef, nb, k + 1, (visited, s.1.push((d, e)), kept, s.3))
                    } else {
                        beam_visit(kernel, m, contents, query, ef, nb, k + 1, (visited, s.1, s.2, s.3))
                    }
                },
            }
        }
    }
}

/// One round of a beam search on layer `l`: it is over when no candidate is
/// left; otherwise the nearest candidate (the first of equals) is taken out,
/// and the search is over if it is farther than the worst found, else its
/// neighbours are visited.
pub open spec fn beam_step<K: Fn(MetricsName, &[u32], &[u32]) -> Result<u32, VestoError>>(
    kernel: K,
    m: MetricsName,
    contents: Map<u64, Seq<u32>>,
    layers: LayersView,
    l: int,
    query: Seq<u32>,
    ef: nat,
    s: BeamState,
) -> Result<BeamState, VestoError> {
    if s.3 {
        Ok(s)
    } else if s.1.len() == 0 {
        Ok((s.0, s.1, s.2, true))
    } else {
        let ci = min_index(s.1, s.1.len() as int);
        let c = s.1[ci];
        let rest = swap_out(s.1, ci);
        if float_lt(worst_of(s.2), c.0) {
            Ok((s.0, rest, s.2, true))
        } else {
            beam_visit(kernel, m, contents, query, ef, neighbours(layers, l, c.1.0), 0, (s.0, rest, s.2, false))
        }
    }
}

/// A beam search on layer `l` from the entry points `ep`, after its start
/// and `n` rounds.
pub open spec fn beam_run<K: Fn(MetricsName, &[u32], &[u32]) -> Result<u32, VestoError>>(
    kernel: K,
    m: MetricsName,
    contents: Map<u64, Seq<u32>>,
    layers: LayersView,
    l: int,
    query: Seq<u32>,
    ef: nat,
    ep: Seq<EntityId>,
    n: nat,
) -> Result<BeamState, VestoError>
    decreases n,
{
    if n == 0 {
        beam_start(kernel, m, contents, query, ep, ep.len() as int)
    } else {
        match beam_run(kernel, m, contents, layers, l, query, ef, ep, (n - 1) as nat) {
            Err(e) => Err(e),
            Ok(s) => beam_step(kernel, m, contents, layers, l, query, ef, s),
        }
    }
}

/// A beam search has ended: it failed, or its rounds are over.
pub open spec fn beam_ended(r: Result<BeamState, VestoError>) -> bool {
    r is Err || (r matches Ok(s) && s.3)
}

/// What a beam search on layer `l` from `ep` ends with: the entities found
/// once its rounds are over, or the failure that stopped it.
pub open spec fn beam_outcome<K: Fn(MetricsName, &[u32], &[u32]) -> Result<u32, VestoError>>(
    kernel: K,
    m: MetricsName,
    contents: Map<u64, Seq<u32>>,
    layers: LayersView,
    l: int,
    query: Seq<u32>,
    ef: nat,
    ep: Seq<EntityId>,
) -> Result<Seq<EntityId>, VestoError> {
    let n = choose|n: nat| beam_ended(#[trigger] beam_run(kernel, m, contents, layers, l, query, ef, ep, n));
    match beam_run(kernel, m, contents, layers, l, query, ef, ep, n) {
        Ok(s) => Ok(s.2.map_values(|x: Scored| x.1)),
        Err(e) => Err(e),
    }
}

/// Once a beam search has ended, further rounds change nothing.
proof fn lemma_beam_ended_stays<K: Fn(MetricsName, &[u32], &[u32]) -> Result<u32, VestoError>>(
    kernel: K,
    m: MetricsName,
    contents: Map<u64, Seq<u32>>,
    layers: LayersView,
    l: int,
    query: Seq<u32>,
    ef: nat,
    ep: Seq<EntityId>,
    n: nat,
    p: nat,
)
    requires
        n <= p,
        beam_ended(beam_run(kernel, m, contents, layers, l, query, ef, ep, n)),
    ensures
        beam_run(kernel, m, contents, layers, l, query, ef, ep, p) == beam_run(kernel, m, contents, layers, l, query, ef, ep, n),
    decreases p - n,
{
    if n < p {
        lemma_beam_ended_stays(kernel, m, contents, layers, l, query, ef, ep, n, (p - 1) as nat);
    }
}

/// Any round at which a beam search has ended gives its outcome.
proof fn lemma_beam_outcome<K: Fn(MetricsName, &[u32], &[u32]) -> Result<u32, VestoError>>(
    kernel: K,
    m: MetricsName,
    contents: Map<u64, Seq<u32>>,
    layers: LayersView,
    l: int,
    query: Seq<u32>,
    ef: nat,
    ep: Seq<EntityId>,
    t: nat,
)
    requires
        beam_ended(beam_run(kernel, m, contents, layers, l, query, ef, ep, t)),
    ensures
        beam_outcome(kernel, m, contents, layers, l, query, ef, ep) == match beam_run(kernel, m, contents, layers, l, query, ef, ep, t) {
            Ok(s) => Ok::<Seq<EntityId>, VestoError>(s.2.map_values(|x: Scored| x.1)),
            Err(e) => Err::<Seq<EntityId>, VestoError>(e),
        },
{
    let n = choose|n: nat| beam_ended(#[trigger] beam_run(kernel, m, contents, layers, l, query, ef, ep, n));
    if n <= t {
        lemma_beam_ended_stays(kernel, m, contents, layers, l, query, ef, ep, n, t);
    } else {
        lemma_beam_ended_stays(kernel, m, contents, layers, l, query, ef, ep, t, n);
    }
}

/// A failure while starting on the first `n` entry points is the start's
/// failure.
proof fn lemma_beam_start_err<K: Fn(MetricsName, &[u32], &[u32]) -> Result<u32, VestoError>>(
    kernel: K,
    m: MetricsName,
    contents: Map<u64, Seq<u32>>,
    query: Seq<u32>,
    ep: Seq<EntityId>,
    n: int,
    p: int,
    e: VestoError,
)
    requires
        n <= p,
        beam_start(kernel, m, contents, query, ep, n) == Err::<BeamState, VestoError>(e),
    ensures
        beam_start(kernel, m, contents, query, ep, p) == Err::<BeamState, VestoError>(e),
    decreases p - n,
{
    if n < p {
        lemma_beam_start_err(kernel, m, contents, query, ep, n, p - 1, e);
    }
}

/// `x` is a starting point or a neighbour of some node on layer `l`.
pub open spec fn from_layer(layers: LayersView, l: int, ep: Seq<EntityId>, x: EntityId) -> bool {
    ep.contains(x) || linked_at(layers, l, x)
}

/// The nearest of a list of entities to the query: the first position of
/// a strictly least distance among the entities the store holds (starting
/// from position 0 at infinity); none for an empty list.
pub open spec fn nearest_from(
    ids: Seq<EntityId>,
    contents: Map<u64, Seq<u32>>,
    dist: spec_fn(Seq<u32>) -> Result<u32, VestoError>,
) -> Result<Option<(usize, EntityId)>, VestoError> {
    if ids.len() == 0 {
        Ok(None)
    } else {
        match nearest_scan(ids, contents, dist, ids.len() as int) {
            Err(e) => Err(e),
            Ok((_, pos)) => Ok(Some((pos as usize, ids[pos]))),
        }
    }
}

/// The least distance seen in the first `n` entities (starting at
/// infinity) and its position.
pub open spec fn nearest_scan(
    ids: Seq<EntityId>,
    contents: Map<u64, Seq<u32>>,
    dist: spec_fn(Seq<u32>) -> Result<u32, VestoError>,
    n: int,
) -> Result<(u32, int), VestoError>
    decreases n,
{
    if n <= 0 {
        Ok((spec_infinity(), 0))
    } else {
        match nearest_scan(ids, contents, dist, n - 1) {
            Err(e) => Err(e),
            Ok((best, pos)) => {
                let id = ids[n - 1];
                if !contents.contains_key(id.0) {
                    Ok((best, pos))
                } else {
                    match dist(contents[id.0]) {
                        Err(e) => Err(e),
                        Ok(d) => if float_lt(d, best) { Ok((d, n - 1)) } else { Ok((best, pos)) },
                    }
                }
            },
        }
    }
}

/// The distance from the query to a stored vector, with the query first.
pub open spec fn from_query<K: Fn(MetricsName, &[u32], &[u32]) -> Result<u32, VestoError>>(
    kernel: K,
    m: MetricsName,
    query: Seq<u32>,
) -> spec_fn(Seq<u32>) -> Result<u32, VestoError> {
    |v: Seq<u32>| kernel_value(kernel, m, query, v)
}

impl HNSWGraph {
    /// The distance of a stored entity to the query.
    fn dist<K: Fn(MetricsName, &[u32], &[u32]) -> Result<u32, VestoError>>(
        &self,
        store: &VestoStore,
        kernel: &K,
        id: &EntityId,
        query: &[u32],
    ) -> (r: Result<u32, VestoError>)
        requires
            store.wf(),
            kernel_ok(*kernel),
            store.contents().contains_key(id.0),
        ensures
            r == kernel_value(*kernel, self.spec_metric(), store.contents()[id.0], query@),
    {
        match store.get_view(id) {
            Some(v) => distance(kernel, self.metric.name(), v.as_slice(), query),
            None => Err(VestoError::KeyNotFound),
        }
    }

    /// The position and id of the entity nearest to the query; entities the
    /// store lacks are passed over.
    pub fn nearest_element<K: Fn(MetricsName, &[u32], &[u32]) -> Result<u32, VestoError>>(
        &self,
        store: &VestoStore,
        kernel: &K,
        ids_list: &Vec<EntityId>,
        query: &[u32],
    ) -> (r: Result<Option<(usize, EntityId)>, VestoError>)
        requires
            store.wf(),
            store.rows_exist_for(ids_list@),
            kernel_ok(*kernel),
        ensures
            r == nearest_from(ids_list@, store.contents(), from_query(*kernel, self.spec_metric(), query@)),
            r matches Ok(Some((pos, id))) ==> pos < ids_list@.len() && ids_list@[pos as int] == id,
            r matches Ok(None) ==> ids_list@.len() == 0,
    {
        let ghost f = from_query(*kernel, self.spec_metric(), query@);
        if ids_list.len() == 0 {
            return Ok(None);
        }
        let mut min_score = infinity();
        let mut response = ids_list[0];
        let mut min_pos: usize = 0;
        let mut i: usize = 0;
        while i < ids_list.len()
            invariant
                store.wf(),
                store.rows_exist_for(ids_list@),
                kernel_ok(*kernel),
                f == from_query(*kernel, self.spec_metric(), query@),
                0 < ids_list@.len(),
                i <= ids_list@.len(),
                nearest_scan(ids_list@, store.contents(), f, i as int) == Ok::<(u32, int), VestoError>((min_score, min_pos as int)),
                min_pos < ids_list@.len(),
                response == ids_list@[min_pos as int],
            decreases ids_list.len() - i,
        {
            let el = ids_list[i];
            match store.get(&el) {
                None => {},
                Some(v) => {
                    let score = distance(kernel, self.metric.name(), query, v.as_slice());
                    match score {
                        Err(e) => {
                            proof {
                                lemma_nearest_scan_err(ids_list@, store.contents(), f, (i + 1) as int, ids_list@.len() as int, e);
                            }
                            return Err(e);
                        },
                        Ok(d) => {
                            if float_less(d, min_score) {
                                response = el;
                                min_score = d;
                                min_pos = i;
                            }
                        },
                    }
                },
            }
            i = i + 1;
        }
        Ok(Some((min_pos, response)))
    }
}

proof fn lemma_nearest_scan_err(
    ids: Seq<EntityId>,
    contents: Map<u64, Seq<u32>>,
    f: spec_fn(Seq<u32>) -> Result<u32, VestoError>,
    n: int,
    m: int,
    e: VestoError,
)
    requires
        n <= m,
        nearest_scan(ids, contents, f, n) == Err::<(u32, int), VestoError>(e),
    ensures
        nearest_scan(ids, contents, f, m) == Err::<(u32, int), VestoError>(e),
    decreases m - n,
{
    if n < m {
        lemma_nearest_scan_err(ids, contents, f, n, m - 1, e);
    }
}


impl HNSWGraph {
    /// Beam search on layer `l` from the entry points `ep`: keeps the `ef`
    /// nearest entities found (never fewer than the entry points, which all
    /// start in it) and returns them. Each found entity is an entry point
    /// or a neighbour on layer `l`. The result is that of the search rounds
    /// `beam_run` describes, once they are over.
    pub fn search_layer<K: Fn(MetricsName, &[u32], &[u32]) -> Result<u32, VestoError>>(
        &self,
        store: &VestoStore,
        kernel: &K,
        query: &[u32],
        ep: &Vec<EntityId>,
        ef: usize,
        l: usize,
    ) -> (r: Result<Vec<EntityId>, VestoError>)
        requires
            self.wf(),
            store.wf(),
            self.within(store),
            kernel_ok(*kernel),
            ep@.len() > 0 ==> l < self.spec_layers().len(),
            forall|i: int| 0 <= i < ep@.len() ==> store.contents().contains_key((#[trigger] ep@[i]).0),
        ensures
            r matches Ok(w) ==> beam_outcome(*kernel, self.spec_metric(), store.contents(), self.spec_layers(),
                l as int, query@, ef as nat, ep@) == Ok::<Seq<EntityId>, VestoError>(w@),
            r matches Err(e) ==> beam_outcome(*kernel, self.spec_metric(), store.contents(), self.spec_layers(),
                l as int, query@, ef as nat, ep@) == Err::<Seq<EntityId>, VestoError>(e),
            r matches Ok(w) ==> {
                &&& ep@.len() <= w@.len()
                &&& w@.len() <= if ef < ep@.len() { ep@.len() } else { ef as nat }
                &&& forall|i: int| 0 <= i < w@.len() ==> from_layer(self.spec_layers(), l as int, ep@, #[trigger] w@[i])
                &&& forall|i: int| 0 <= i < w@.len() ==> store.contents().contains_key((#[trigger] w@[i]).0)
                &&& distinct_ids(ep@) ==> distinct_ids(w@)
            },
    {
        let ghost layers = self.spec_layers();
        let ghost nodes = store.contents().dom();
        let ghost contents = store.contents();
        let ghost m = self.spec_metric();
        let ghost cap: int = if ef < ep@.len() { ep@.len() as int } else { ef as int };
        proof {
            store.lemma_contents_finite();
        }
        let mut visited: HashSet<u64> = HashSet::new();
        let mut candidates: Vec<Scored> = Vec::new();
        let mut result: Vec<Scored> = Vec::new();
        let mut i: usize = 0;
        while i < ep.len()
            invariant
                self.wf(),
                store.wf(),
                self.within(store),
                kernel_ok(*kernel),
                layers == self.spec_layers(),
                contents == store.contents(),
                m == self.spec_metric(),
                forall|j: int| 0 <= j < ep@.len() ==> store.contents().contains_key((#[trigger] ep@[j]).0),
                i <= ep@.len(),
                visited@.subset_of(store.contents().dom()),
                visited@.finite(),
                candidates@.len() == i,
                result@.len() == i,
                forall|j: int| 0 <= j < candidates@.len() ==> ep@.contains((#[trigger] candidates@[j]).1),
                forall|j: int| 0 <= j < result@.len() ==> ep@.contains((#[trigger] result@[j]).1),
                forall|j: int| 0 <= j < result@.len() ==> #[trigger] result@[j].1 == ep@[j] && visited@.contains(result@[j].1.0),
                beam_start(*kernel, m, contents, query@, ep@, i as int)
                    == Ok::<BeamState, VestoError>((visited@, candidates@, result@, false)),
            decreases ep.len() - i,
        {
            let e = ep[i];
            proof {
                assert(ep@.contains(e));
            }
            visited.insert(e.0);
            let d = match self.dist(store, kernel, &e, query) {
                Ok(d) => d,
                Err(err) => {
                    proof {
                        assert(beam_start(*kernel, m, contents, query@, ep@, i + 1) == Err::<BeamState, VestoError>(err));
                        lemma_beam_start_err(*kernel, m, contents, query@, ep@, i + 1, ep@.len() as int, err);
                        assert(beam_run(*kernel, m, contents, layers, l as int, query@, ef as nat, ep@, 0)
                            == Err::<BeamState, VestoError>(err));
                        lemma_beam_outcome(*kernel, m, contents, layers, l as int, query@, ef as nat, ep@, 0);
                    }
                    return Err(err);
                },
            };
            candidates.push((d, e));
            result.push((d, e));
            i = i + 1;
        }
        let ghost mut t: nat = 0;
        loop
            invariant_except_break
                beam_run(*kernel, m, contents, layers, l as int, query@, ef as nat, ep@, t)
                    == Ok::<BeamState, VestoError>((visited@, candidates@, result@, false)),
            invariant
                self.wf(),
                store.wf(),
                self.within(store),
                kernel_ok(*kernel),
                layers == self.spec_layers(),
                contents == store.contents(),
                m == self.spec_metric(),
                nodes == store.contents().dom(),
                nodes.finite(),
                ep@.len() > 0 ==> l < layers.len(),
                ep@.len() == 0 ==> candidates@.len() == 0 && result@.len() == 0,
                cap == (if ef < ep@.len() { ep@.len() as int } else { ef as int }),
                forall|j: int| 0 <= j < ep@.len() ==> store.contents().contains_key((#[trigger] ep@[j]).0),
                visited@.subset_of(nodes),
                ep@.len() <= result@.len() <= cap,
                forall|j: int| 0 <= j < candidates@.len() ==> from_layer(layers, l as int, ep@, (#[trigger] candidates@[j]).1),
                forall|j: int| 0 <= j < result@.len() ==> from_layer(layers, l as int, ep@, (#[trigger] result@[j]).1),
                forall|j: int| 0 <= j < result@.len() ==> visited@.contains((#[trigger] result@[j]).1.0),
                distinct_ids(ep@) ==> distinct_scored(result@),
            ensures
                beam_run(*kernel, m, contents, layers, l as int, query@, ef as nat, ep@, t)
                    == Ok::<BeamState, VestoError>((visited@, candidates@, result@, true)),
            decreases 2 * (nodes.len() - visited@.len()) + candidates@.len(),
        {
            proof {
                vstd::set_lib::lemma_len_subset(visited@, nodes);
            }
            let ghost s0: BeamState = (visited@, candidates@, result@, false);
            if candidates.len() == 0 {
                proof {
                    t = t + 1;
                }
                break;
            }
            let ci = min_pos(&candidates);
            let c = take_at(&mut candidates, ci);
            let worst = furthest(&result);
            if float_less(worst, c.0) {
                proof {
                    t = t + 1;
                }
                break;
            }
            proof {
                self.lemma_from_layer_stored(store, l as int, ep@, c.1);
            }
            let nb = self.neighbourhood(&c.1, l);
            let ghost start: BeamState = (visited@, candidates@, result@, false);
            proof {
                assert(beam_step(*kernel, m, contents, layers, l as int, query@, ef as nat, s0)
                    == beam_visit(*kernel, m, contents, query@, ef as nat, nb@, 0, start));
            }
            let ghost c0 = candidates@.len();
            let ghost v0 = visited@.len();
            let mut k: usize = 0;
            while k < nb.len()
                invariant
                    self.wf(),
                    store.wf(),
                    self.within(store),
                    kernel_ok(*kernel),
                    layers == self.spec_layers(),
                    contents == store.contents(),
                    m == self.spec_metric(),
                    nodes == store.contents().dom(),
                    nodes.finite(),
                    l < layers.len(),
                    ep@.len() > 0,
                    cap == (if ef < ep@.len() { ep@.len() as int } else { ef as int }),
                    forall|j: int| 0 <= j < ep@.len() ==> store.contents().contains_key((#[trigger] ep@[j]).0),
                    nb@ == neighbours(layers, l as int, c.1.0),
                    k <= nb@.len(),
                    visited@.subset_of(nodes),
                    visited@.finite(),
                    visited@.len() >= v0,
                    candidates@.len() - c0 <= visited@.len() - v0,
                    ep@.len() <= result@.len() <= cap,
                    forall|j: int| 0 <= j < candidates@.len() ==> from_layer(layers, l as int, ep@, (#[trigger] candidates@[j]).1),
                    forall|j: int| 0 <= j < result@.len() ==> from_layer(layers, l as int, ep@, (#[trigger] result@[j]).1),
                    forall|j: int| 0 <= j < result@.len() ==> visited@.contains((#[trigger] result@[j]).1.0),
                    distinct_ids(ep@) ==> distinct_scored(result@),
                    beam_run(*kernel, m, contents, layers, l as int, query@, ef as nat, ep@, t) == Ok::<BeamState, VestoError>(s0),
                    beam_step(*kernel, m, contents, layers, l as int, query@, ef as nat, s0)
                        == beam_visit(*kernel, m, contents, query@, ef as nat, nb@, k as int, (visited@, candidates@, result@, false)),
                decreases nb.len() - k,
            {
                let e = nb[k];
                proof {
                    assert(layers[l as int].contains_key(c.1.0)) by {
                        if !layers[l as int].contains_key(c.1.0) {
                            assert(nb@.len() == 0);
                        }
                    }
                    assert(layers[l as int][c.1.0].contains(e)) by {
                        assert(layers[l as int][c.1.0][k as int] == e);
                    }
                    assert(linked_at(layers, l as int, e));
                    assert(store.contents().contains_key(e.0)) by {
                        assert(layers[l as int][c.1.0][k as int] == e);
                    }
                }
                let ghost cur: BeamState = (visited@, candidates@, result@, false);
                if visited.insert(e.0) {
                    proof {
                        assert(visited@.finite());
                    }
                    let e_dist = match self.dist(store, kernel, &e, query) {
                        Ok(d) => d,
                        Err(err) => {
                            proof {
                                assert(beam_visit(*kernel, m, contents, query@, ef as nat, nb@, k as int, cur)
                                    == Err::<BeamState, VestoError>(err));
                                assert(beam_run(*kernel, m, contents, layers, l as int, query@, ef as nat, ep@, t + 1)
                                    == Err::<BeamState, VestoError>(err));
                                lemma_beam_outcome(*kernel, m, contents, layers, l as int, query@, ef as nat, ep@, t + 1);
                            }
                            return Err(err);
                        },
                    };
                    let worst_now = furthest(&result);
                    if float_less(e_dist, worst_now) || result.len() < ef {
                        candidates.push((e_dist, e));
                        let ghost r0 = result@;
                        result.push((e_dist, e));
                        proof {
                            if distinct_ids(ep@) {
                                assert forall|a: int, b: int| 0 <= a < b < result@.len() implies
                                    (#[trigger] result@[a]).1 != (#[trigger] result@[b]).1 by {
                                    if b == r0.len() {
                                        assert(cur.0.contains(result@[a].1.0));
                                    } else {
                                        assert(r0[a].1 != r0[b].1);
                                    }
                                }
                            }
                        }
                        if result.len() > ef {
                            let wi = max_pos(&result);
                            let ghost r1 = result@;
                            let _evicted = take_at(&mut result, wi);
                            proof {
                                if distinct_ids(ep@) {
                                    lemma_swap_out_distinct(r1, wi as int);
                                }
                                assert forall|j: int| 0 <= j < result@.len() implies visited@.contains((#[trigger] result@[j]).1.0) by {
                                    assert(r1.contains(result@[j]));
                                }
                            }
                        }
                    }
                }
                proof {
                    if cur.0.contains(e.0) {
                        assert(visited@ =~= cur.0);
                    }
                }
                k = k + 1;
            }
            proof {
                vstd::set_lib::lemma_len_subset(visited@, nodes);
                t = t + 1;
            }
        }
        let mut out: Vec<EntityId> = Vec::new();
        let mut j: usize = 0;
        while j < result.len()
            invariant
                j <= result@.len(),
                out@.len() == j,
                forall|q: int| 0 <= q < j ==> #[trigger] out@[q] == result@[q].1,
            decreases result.len() - j,
        {
            out.push(result[j].1);
            j = j + 1;
        }
        proof {
            assert(out@ =~= result@.map_values(|x: Scored| x.1));
            if distinct_ids(ep@) {
                assert forall|a: int, b: int| 0 <= a < b < out@.len() implies out@[a] != out@[b] by {
                    assert(result@[a].1 != result@[b].1);
                }
            }
            lemma_beam_outcome(*kernel, m, contents, layers, l as int, query@, ef as nat, ep@, t);
            assert forall|q: int| 0 <= q < out@.len() implies from_layer(layers, l as int, ep@, #[trigger] out@[q]) by {
                assert(out@[q] == result@[q].1);
            }
            assert forall|q: int| 0 <= q < out@.len() implies store.contents().contains_key((#[trigger] out@[q]).0) by {
                assert(out@[q] == result@[q].1);
                self.lemma_from_layer_stored(store, l as int, ep@, out@[q]);
            }
        }
        Ok(out)
    }

    /// Starting points and neighbours on a layer are stored.
    proof fn lemma_from_layer_stored(&self, store: &VestoStore, l: int, ep: Seq<EntityId>, x: EntityId)
        requires
            self.within(store),
            0 <= l < self.spec_layers().len(),
            forall|j: int| 0 <= j < ep.len() ==> store.contents().contains_key((#[trigger] ep[j]).0),
            from_layer(self.spec_layers(), l, ep, x),
        ensures
            store.contents().contains_key(x.0),
    {
        let layers = self.spec_layers();
        if ep.contains(x) {
            let j = choose|j: int| 0 <= j < ep.len() && ep[j] == x;
        } else {
            let k = choose|k: u64| #[trigger] layers[l].contains_key(k) && layers[l][k].contains(x);
            let i = choose|i: int| 0 <= i < layers[l][k].len() && layers[l][k][i] == x;
            assert(store.contents().contains_key(layers[l][k][i].0));
        }
    }
}


/// The entity is stored and the score is its distance to the query.
pub open spec fn scored_right<K: Fn(MetricsName, &[u32], &[u32]) -> Result<u32, VestoError>>(
    contents: Map<u64, Seq<u32>>,
    kernel: K,
    m: MetricsName,
    query: Seq<u32>,
    s: Scored,
) -> bool {
    &&& contents.contains_key(s.1.0)
    &&& kernel_value(kernel, m, contents[s.1.0], query) == Ok::<u32, VestoError>(s.0)
}

/// `x` is one of the candidates, or (when extending) a neighbour on layer
/// `l` of one of them.
pub open spec fn heuristic_origin(layers: LayersView, l: int, cands: Seq<EntityId>, extend: bool, x: EntityId) -> bool {
    ||| cands.contains(x)
    ||| (extend && exists|c: EntityId| #[trigger] cands.contains(c) && neighbours(layers, l, c.0).contains(x))
}

/// `acc` followed by the entries of `nb` it does not hold yet, in order.
pub open spec fn extend_with(acc: Seq<EntityId>, nb: Seq<EntityId>) -> Seq<EntityId>
    decreases nb.len(),
{
    if nb.len() == 0 {
        acc
    } else {
        let a = extend_with(acc, nb.drop_last());
        if a.contains(nb.last()) { a } else { a.push(nb.last()) }
    }
}

/// `acc` extended, for each of the ids in turn, with its neighbours on layer
/// `l` that are not held yet.
pub open spec fn neighbours_of_all(layers: LayersView, l: int, ids: Seq<EntityId>, acc: Seq<EntityId>) -> Seq<EntityId>
    decreases ids.len(),
{
    if ids.len() == 0 {
        acc
    } else {
        extend_with(neighbours_of_all(layers, l, ids.drop_last(), acc), neighbours(layers, l, ids.last().0))
    }
}

/// The heuristic's work list: the candidates, then (when extending) each
/// candidate's neighbours on layer `l` that are not in the list yet.
pub open spec fn extended_ids(layers: LayersView, l: int, cands: Seq<EntityId>, extend: bool) -> Seq<EntityId> {
    if extend { neighbours_of_all(layers, l, cands, cands) } else { cands }
}

/// The least distance (IEEE order, the first of equals) from the first `n`
/// kept entries to the vector `v`; the first failing distance is the result.
pub open spec fn closest_scan<K: Fn(MetricsName, &[u32], &[u32]) -> Result<u32, VestoError>>(
    kernel: K,
    m: MetricsName,
    contents: Map<u64, Seq<u32>>,
    kept: Seq<Scored>,
    v: Seq<u32>,
    n: int,
) -> Result<u32, VestoError>
    decreases n,
{
    if n <= 1 {
        kernel_value(kernel, m, contents[kept[0].1.0], v)
    } else {
        match closest_scan(kernel, m, contents, kept, v, n - 1) {
            Err(e) => Err(e),
            Ok(best) => match kernel_value(kernel, m, contents[kept[n - 1].1.0], v) {
                Err(e) => Err(e),
                Ok(d) => Ok(if float_lt(d, best) { d } else { best }),
            },
        }
    }
}

/// Takes the entries of `ws` in turn while fewer than `max` are kept: the
/// first is kept, a later one only when it is nearer to the query than to
/// every entry kept so far; the others are discarded, in order. Gives the
/// kept and the discarded entries.
pub open spec fn heuristic_scan<K: Fn(MetricsName, &[u32], &[u32]) -> Result<u32, VestoError>>(
    kernel: K,
    m: MetricsName,
    contents: Map<u64, Seq<u32>>,
    ws: Seq<Scored>,
    max: nat,
    kept: Seq<Scored>,
    disc: Seq<Scored>,
) -> Result<(Seq<Scored>, Seq<Scored>), VestoError>
    decreases ws.len(),
{
    if ws.len() == 0 || kept.len() >= max {
        Ok((kept, disc))
    } else {
        let w = ws[0];
        let rest = ws.drop_first();
        if !contents.contains_key(w.1.0) {
            Err(VestoError::KeyNotFound)
        } else if kept.len() == 0 {
            heuristic_scan(kernel, m, contents, rest, max, kept.push(w), disc)
        } else {
            match closest_scan(kernel, m, contents, kept, contents[w.1.0], kept.len() as int) {
                Err(e) => Err(e),
                Ok(c) => if float_lt(w.0, c) {
                    heuristic_scan(kernel, m, contents, rest, max, kept.push(w), disc)
                } else {
                    heuristic_scan(kernel, m, contents, rest, max, kept, disc.push(w))
                },
            }
        }
    }
}

/// The kept entries, followed by discarded ones in order up to `max` in all.
pub open spec fn refill(kept: Seq<Scored>, disc: Seq<Scored>, max: nat) -> Seq<Scored> {
    if kept.len() + disc.len() <= max { kept + disc } else { kept + disc.take(max - kept.len()) }
}

/// What the diversity heuristic selects: the work list is scored against the
/// query and stably sorted nearest first, then scanned; with
/// `keep_pruned` the discarded entries refill the selection up to `max`.
pub open spec fn heuristic_select<K: Fn(MetricsName, &[u32], &[u32]) -> Result<u32, VestoError>>(
    kernel: K,
    m: MetricsName,
    contents: Map<u64, Seq<u32>>,
    layers: LayersView,
    l: int,
    cands: Seq<EntityId>,
    query: Seq<u32>,
    max: nat,
    extend: bool,
    keep_pruned: bool,
) -> Result<Seq<Scored>, VestoError> {
    match score_ids(extended_ids(layers, l, cands, extend), contents, to_query(kernel, m, query)) {
        Err(e) => Err(e),
        Ok(work) => match heuristic_scan(kernel, m, contents, stable_sort_by_score(work), max, Seq::empty(), Seq::empty()) {
            Err(e) => Err(e),
            Ok((kept, disc)) => Ok(if keep_pruned { refill(kept, disc, max) } else { kept }),
        },
    }
}

/// An entry of the extended work list is a candidate or a neighbour of one.
pub(crate) proof fn lemma_extended_origin(layers: LayersView, l: int, cands: Seq<EntityId>, extend: bool, x: EntityId)
    requires
        extended_ids(layers, l, cands, extend).contains(x),
    ensures
        heuristic_origin(layers, l, cands, extend, x),
{
    if extend {
        lemma_neighbours_of_all_origin(layers, l, cands, cands, x);
    }
}

proof fn lemma_extend_with_origin(acc: Seq<EntityId>, nb: Seq<EntityId>, x: EntityId)
    requires
        extend_with(acc, nb).contains(x),
    ensures
        acc.contains(x) || nb.contains(x),
    decreases nb.len(),
{
    if nb.len() > 0 {
        let a = extend_with(acc, nb.drop_last());
        if a.contains(x) {
            lemma_extend_with_origin(acc, nb.drop_last(), x);
            if nb.drop_last().contains(x) {
                let j = choose|j: int| 0 <= j < nb.drop_last().len() && nb.drop_last()[j] == x;
                assert(nb[j] == x);
            }
        } else {
            assert(x == nb.last());
            assert(nb[nb.len() - 1] == x);
        }
    }
}

proof fn lemma_neighbours_of_all_origin(layers: LayersView, l: int, ids: Seq<EntityId>, acc: Seq<EntityId>, x: EntityId)
    requires
        neighbours_of_all(layers, l, ids, acc).contains(x),
    ensures
        acc.contains(x) || exists|c: EntityId| #[trigger] ids.contains(c) && neighbours(layers, l, c.0).contains(x),
    decreases ids.len(),
{
    if ids.len() > 0 {
        let front = neighbours_of_all(layers, l, ids.drop_last(), acc);
        lemma_extend_with_origin(front, neighbours(layers, l, ids.last().0), x);
        if front.contains(x) {
            lemma_neighbours_of_all_origin(layers, l, ids.drop_last(), acc, x);
            if !acc.contains(x) {
                let c = choose|c: EntityId| #[trigger] ids.drop_last().contains(c) && neighbours(layers, l, c.0).contains(x);
                let j = choose|j: int| 0 <= j < ids.drop_last().len() && ids.drop_last()[j] == c;
                assert(ids[j] == c);
                assert(ids.contains(c));
            }
        } else {
            assert(ids[ids.len() - 1] == ids.last());
            assert(ids.contains(ids.last()));
        }
    }
}

/// Whether the list holds the id.
fn holds(v: &Vec<EntityId>, x: EntityId) -> (r: bool)
    ensures
        r == v@.contains(x),
{
    let mut i: usize = 0;
    while i < v.len()
        invariant
            i <= v@.len(),
            forall|j: int| 0 <= j < i ==> v@[j] != x,
        decreases v.len() - i,
    {
        if v[i] == x {
            proof {
                assert(v@[i as int] == x);
            }
            return true;
        }
        i = i + 1;
    }
    false
}

/// A failing distance among the first `n` kept entries is the least
/// distance's failure for any longer prefix.
proof fn lemma_closest_scan_err<K: Fn(MetricsName, &[u32], &[u32]) -> Result<u32, VestoError>>(
    kernel: K,
    m: MetricsName,
    contents: Map<u64, Seq<u32>>,
    kept: Seq<Scored>,
    v: Seq<u32>,
    n: int,
    p: int,
    e: VestoError,
)
    requires
        1 <= n <= p,
        closest_scan(kernel, m, contents, kept, v, n) == Err::<u32, VestoError>(e),
    ensures
        closest_scan(kernel, m, contents, kept, v, p) == Err::<u32, VestoError>(e),
    decreases p - n,
{
    if n < p {
        lemma_closest_scan_err(kernel, m, contents, kept, v, n, p - 1, e);
    }
}

/// Once `max` entries are kept, or nothing is left, the scan is done.
proof fn lemma_heuristic_scan_done<K: Fn(MetricsName, &[u32], &[u32]) -> Result<u32, VestoError>>(
    kernel: K,
    m: MetricsName,
    contents: Map<u64, Seq<u32>>,
    ws: Seq<Scored>,
    max: nat,
    kept: Seq<Scored>,
    disc: Seq<Scored>,
)
    requires
        ws.len() == 0 || kept.len() >= max,
    ensures
        heuristic_scan(kernel, m, contents, ws, max, kept, disc) == Ok::<(Seq<Scored>, Seq<Scored>), VestoError>((kept, disc)),
{
}

/// The greedy descent from layer `lc` down to layer `low + 1`: on each
/// layer a beam search of width one from the current point, moving to the
/// nearest entity it finds (staying when it finds none). Gives the point
/// reached.
pub open spec fn descend<K: Fn(MetricsName, &[u32], &[u32]) -> Result<u32, VestoError>>(
    kernel: K,
    m: MetricsName,
    contents: Map<u64, Seq<u32>>,
    layers: LayersView,
    query: Seq<u32>,
    ep: EntityId,
    lc: int,
    low: int,
) -> Result<EntityId, VestoError>
    decreases lc - low,
{
    if lc <= low {
        Ok(ep)
    } else {
        match beam_outcome(kernel, m, contents, layers, lc, query, 1, seq![ep]) {
            Err(e) => Err(e),
            Ok(w) => match nearest_from(w, contents, from_query(kernel, m, query)) {
                Err(e) => Err(e),
                Ok(None) => descend(kernel, m, contents, layers, query, ep, lc - 1, low),
                Ok(Some((_, n))) => descend(kernel, m, contents, layers, query, n, lc - 1, low),
            },
        }
    }
}

/// What neighbour selection gives for the query among `w`, on a graph with
/// these layers and settings: the heuristic's choice (on the bottom layer,
/// its flags defaulting to the graph's) when the graph uses it, otherwise
/// the `k` nearest of the stored ones, nearest first.
pub open spec fn select_spec<K: Fn(MetricsName, &[u32], &[u32]) -> Result<u32, VestoError>>(
    kernel: K,
    m: MetricsName,
    contents: Map<u64, Seq<u32>>,
    layers: LayersView,
    heuristic: bool,
    extend_default: bool,
    keep_default: bool,
    query: Seq<u32>,
    w: Seq<EntityId>,
    k: nat,
    extend_candidates: Option<bool>,
    keep_pruned_connections: Option<bool>,
) -> Result<Seq<Scored>, VestoError> {
    if heuristic {
        heuristic_select(kernel, m, contents, layers, 0, w, query, k,
            extend_candidates.unwrap_or(extend_default), keep_pruned_connections.unwrap_or(keep_default))
    } else {
        match score_ids(w, contents, to_query(kernel, m, query)) {
            Ok(s) => Ok(top_k_by_score(s, k)),
            Err(e) => Err(e),
        }
    }
}

impl HNSWGraph {
    /// The diversity heuristic: takes candidates nearest first and keeps one
    /// only when it is nearer to the query than to every neighbour kept so
    /// far; optionally adds the candidates' neighbours on layer `lc` first,
    /// and optionally refills from the discarded ones, nearest first. At
    /// most `max_neighbors` are returned, each with its distance to the query.
    pub fn select_neighbors_heuristic<K: Fn(MetricsName, &[u32], &[u32]) -> Result<u32, VestoError>>(
        &self,
        store: &VestoStore,
        kernel: &K,
        query: &[u32],
        candidates_list: Vec<EntityId>,
        max_neighbors: usize,
        lc: usize,
        extend_candidates: bool,
        keep_pruned_connections: bool,
    ) -> (r: Result<Vec<Scored>, VestoError>)
        requires
            self.wf(),
            store.wf(),
            self.within(store),
            store.rows_exist_for(candidates_list@),
            kernel_ok(*kernel),
            extend_candidates && candidates_list@.len() > 0 ==> lc < self.spec_layers().len(),
        ensures
            r matches Ok(v) ==> Ok::<Seq<Scored>, VestoError>(v@) == heuristic_select(*kernel, self.spec_metric(), store.contents(),
                self.spec_layers(), lc as int, candidates_list@, query@, max_neighbors as nat, extend_candidates, keep_pruned_connections),
            r matches Err(e) ==> Err::<Seq<Scored>, VestoError>(e) == heuristic_select(*kernel, self.spec_metric(), store.contents(),
                self.spec_layers(), lc as int, candidates_list@, query@, max_neighbors as nat, extend_candidates, keep_pruned_connections),
            r matches Ok(v) ==> {
                &&& v@.len() <= max_neighbors
                &&& forall|i: int| 0 <= i < v@.len() ==> scored_right(store.contents(), *kernel, self.spec_metric(), query@, #[trigger] v@[i])
                &&& forall|i: int| 0 <= i < v@.len() ==> heuristic_origin(self.spec_layers(), lc as int, candidates_list@, extend_candidates, (#[trigger] v@[i]).1)
            },
    {
        broadcast use vstd::seq_lib::group_to_multiset_ensures;
        let ghost layers = self.spec_layers();
        let ghost m = self.spec_metric();
        let ghost contents = store.contents();
        let ghost cands = candidates_list@;
        let ghost max = max_neighbors as nat;
        let mut ids = slice_to_vec(candidates_list.as_slice());
        if extend_candidates {
            let mut i: usize = 0;
            while i < candidates_list.len()
                invariant
                    self.wf(),
                    layers == self.spec_layers(),
                    cands == candidates_list@,
                    cands.len() > 0 ==> lc < layers.len(),
                    i <= cands.len(),
                    ids@ == neighbours_of_all(layers, lc as int, cands.take(i as int), cands),
                decreases candidates_list.len() - i,
            {
                let e = candidates_list[i];
                let nb = self.neighbourhood(&e, lc);
                let ghost base = ids@;
                let mut k: usize = 0;
                while k < nb.len()
                    invariant
                        k <= nb@.len(),
                        ids@ == extend_with(base, nb@.take(k as int)),
                    decreases nb.len() - k,
                {
                    let x = nb[k];
                    proof {
                        assert(nb@.take(k + 1).drop_last() =~= nb@.take(k as int));
                        assert(nb@.take(k + 1).last() == x);
                    }
                    if !holds(&ids, x) {
                        ids.push(x);
                    }
                    k = k + 1;
                }
                proof {
                    assert(nb@.take(k as int) =~= nb@);
                    assert(cands.take(i + 1).drop_last() =~= cands.take(i as int));
                    assert(cands.take(i + 1).last() == e);
                }
                i = i + 1;
            }
            proof {
                assert(cands.take(i as int) =~= cands);
            }
        }
        proof {
            assert(ids@ == extended_ids(layers, lc as int, cands, extend_candidates));
            assert forall|i: int| 0 <= i < ids@.len() && #[trigger] store@.pos.contains_key(ids@[i].0)
                implies (store@.pos[ids@[i].0] as int) < store@.rows.len() by {
                let x = ids@[i];
                assert(ids@.contains(x));
                lemma_extended_origin(layers, lc as int, cands, extend_candidates, x);
                if cands.contains(x) {
                    let j = choose|j: int| 0 <= j < cands.len() && cands[j] == x;
                    assert(store@.pos.contains_key(cands[j].0));
                } else {
                    let c = choose|c: EntityId| #[trigger] cands.contains(c) && neighbours(layers, lc as int, c.0).contains(x);
                    let q = choose|q: int| 0 <= q < neighbours(layers, lc as int, c.0).len() && neighbours(layers, lc as int, c.0)[q] == x;
                    assert(layers[lc as int].contains_key(c.0));
                    assert(layers[lc as int][c.0][q] == x);
                    assert(contents.contains_key(x.0));
                }
            }
        }
        let work = match score_entities(ids.as_slice(), store, kernel, self.metric.name(), query) {
            Ok(w) => w,
            Err(e) => {
                return Err(e);
            },
        };
        let ordered = sort_by_score(&work);
        let ghost f = to_query(*kernel, m, query@);
        proof {
            lemma_score_ids_props(ids@, contents, f);
            lemma_stable_sort_multiset(work@);
            assert forall|j: int| 0 <= j < ordered@.len() implies
                scored_right(contents, *kernel, m, query@, #[trigger] ordered@[j])
                && heuristic_origin(layers, lc as int, cands, extend_candidates, ordered@[j].1) by {
                assert(ordered@.to_multiset().count(ordered@[j]) > 0);
                assert(work@.contains(ordered@[j]));
                let q = choose|q: int| 0 <= q < work@.len() && work@[q] == ordered@[j];
                lemma_extended_origin(layers, lc as int, cands, extend_candidates, work@[q].1);
            }
        }
        let mut result: Vec<Scored> = Vec::new();
        let mut discard_set: Vec<Scored> = Vec::new();
        let mut i: usize = 0;
        proof {
            assert(ordered@.skip(0) =~= ordered@);
        }
        while i < ordered.len() && result.len() < max_neighbors
            invariant
                store.wf(),
                kernel_ok(*kernel),
                contents == store.contents(),
                m == self.spec_metric(),
                max == max_neighbors as nat,
                layers == self.spec_layers(),
                cands == candidates_list@,
                ordered@ == stable_sort_by_score(work@),
                score_ids(extended_ids(layers, lc as int, cands, extend_candidates), contents, to_query(*kernel, m, query@))
                    == Ok::<Seq<Scored>, VestoError>(work@),
                i <= ordered@.len(),
                result@.len() <= max_neighbors,
                heuristic_scan(*kernel, m, contents, ordered@.skip(i as int), max, result@, discard_set@)
                    == heuristic_scan(*kernel, m, contents, ordered@, max, Seq::empty(), Seq::empty()),
                forall|j: int| 0 <= j < ordered@.len() ==> scored_right(contents, *kernel, m, query@, #[trigger] ordered@[j])
                    && heuristic_origin(layers, lc as int, cands, extend_candidates, ordered@[j].1),
                forall|j: int| 0 <= j < result@.len() ==> scored_right(contents, *kernel, m, query@, #[trigger] result@[j])
                    && heuristic_origin(layers, lc as int, cands, extend_candidates, result@[j].1),
                forall|j: int| 0 <= j < discard_set@.len() ==> scored_right(contents, *kernel, m, query@, #[trigger] discard_set@[j])
                    && heuristic_origin(layers, lc as int, cands, extend_candidates, discard_set@[j].1),
            decreases ordered.len() - i,
        {
            let w = ordered[i];
            proof {
                assert(ordered@.skip(i as int)[0] == w);
                assert(ordered@.skip(i as int).drop_first() =~= ordered@.skip(i + 1));
            }
            let w_vec = match store.get(&w.1) {
                Some(v) => v,
                None => return Err(VestoError::KeyNotFound),
            };
            if result.len() == 0 {
                result.push(w);
            } else {
                let closest = match self.closest_in(store, kernel, &result, w_vec.as_slice()) {
                    Ok(c) => c,
                    Err(e) => {
                        proof {
                            let ws = ordered@.skip(i as int);
                            assert(contents.contains_key(w.1.0));
                            assert(w_vec@ == contents[w.1.0]);
                            assert(heuristic_scan(*kernel, m, contents, ws, max, result@, discard_set@)
                                == Err::<(Seq<Scored>, Seq<Scored>), VestoError>(e));
                        }
                        return Err(e);
                    },
                };
                if float_less(w.0, closest) {
                    result.push(w);
                } else {
                    discard_set.push(w);
                }
            }
            i = i + 1;
        }
        proof {
            lemma_heuristic_scan_done(*kernel, m, contents, ordered@.skip(i as int), max, result@, discard_set@);
        }
        let ghost kept = result@;
        if keep_pruned_connections {
            let mut j: usize = 0;
            while j < discard_set.len() && result.len() < max_neighbors
                invariant
                    kept.len() <= max_neighbors,
                    result@.len() <= max_neighbors,
                    j <= discard_set@.len(),
                    result@ == kept + discard_set@.take(j as int),
                    forall|q: int| 0 <= q < result@.len() ==> scored_right(contents, *kernel, m, query@, #[trigger] result@[q])
                        && heuristic_origin(layers, lc as int, cands, extend_candidates, result@[q].1),
                    forall|q: int| 0 <= q < discard_set@.len() ==> scored_right(contents, *kernel, m, query@, #[trigger] discard_set@[q])
                        && heuristic_origin(layers, lc as int, cands, extend_candidates, discard_set@[q].1),
                decreases discard_set.len() - j,
            {
                result.push(discard_set[j]);
                j = j + 1;
                proof {
                    assert(result@ =~= kept + discard_set@.take(j as int));
                }
            }
            proof {
                if j == discard_set@.len() {
                    assert(discard_set@.take(j as int) =~= discard_set@);
                }
                assert(result@ =~= refill(kept, discard_set@, max));
            }
        }
        Ok(result)
    }

    /// The least distance (IEEE order, the first of equals) from the kept
    /// entities to the vector `w_vec`.
    fn closest_in<K: Fn(MetricsName, &[u32], &[u32]) -> Result<u32, VestoError>>(
        &self,
        store: &VestoStore,
        kernel: &K,
        kept: &Vec<Scored>,
        w_vec: &[u32],
    ) -> (r: Result<u32, VestoError>)
        requires
            store.wf(),
            kernel_ok(*kernel),
            kept@.len() > 0,
            forall|j: int| 0 <= j < kept@.len() ==> store.contents().contains_key((#[trigger] kept@[j]).1.0),
        ensures
            match r {
                Ok(d) => closest_scan(*kernel, self.spec_metric(), store.contents(), kept@, w_vec@, kept@.len() as int) == Ok::<u32, VestoError>(d),
                Err(e) => closest_scan(*kernel, self.spec_metric(), store.contents(), kept@, w_vec@, kept@.len() as int) == Err::<u32, VestoError>(e),
            },
    {
        let first = kept[0].1;
        let mut best = match self.dist(store, kernel, &first, w_vec) {
            Ok(d) => d,
            Err(err) => {
                proof {
                    lemma_closest_scan_err(*kernel, self.spec_metric(), store.contents(), kept@, w_vec@, 1, kept@.len() as int, err);
                }
                return Err(err);
            },
        };
        let mut i: usize = 1;
        while i < kept.len()
            invariant
                store.wf(),
                kernel_ok(*kernel),
                1 <= i <= kept@.len(),
                forall|j: int| 0 <= j < kept@.len() ==> store.contents().contains_key((#[trigger] kept@[j]).1.0),
                closest_scan(*kernel, self.spec_metric(), store.contents(), kept@, w_vec@, i as int) == Ok::<u32, VestoError>(best),
            decreases kept.len() - i,
        {
            let e = kept[i].1;
            let d = match self.dist(store, kernel, &e, w_vec) {
                Ok(d) => d,
                Err(err) => {
                    proof {
                        lemma_closest_scan_err(*kernel, self.spec_metric(), store.contents(), kept@, w_vec@,
                            (i + 1) as int, kept@.len() as int, err);
                    }
                    return Err(err);
                },
            };
            if float_less(d, best) {
                best = d;
            }
            i = i + 1;
        }
        Ok(best)
    }

    /// What a k-nearest-neighbour search gives: `EmptyIndex` on an empty
    /// graph; otherwise the greedy descent from the entry point to the
    /// bottom layer, a beam search of width `ef` there from the point
    /// reached, and the `k` nearest of the entities it finds, nearest first.
    pub open spec fn knn_result<K: Fn(MetricsName, &[u32], &[u32]) -> Result<u32, VestoError>>(
        &self,
        contents: Map<u64, Seq<u32>>,
        kernel: K,
        query: Seq<u32>,
        k: nat,
        ef: nat,
    ) -> Result<Seq<Scored>, VestoError> {
        match self.spec_entry() {
            None => Err(VestoError::EmptyIndex),
            Some(e) => match descend(kernel, self.spec_metric(), contents, self.spec_layers(), query, e, self.spec_layers().len() - 1, 0) {
                Err(err) => Err(err),
                Ok(p) => match beam_outcome(kernel, self.spec_metric(), contents, self.spec_layers(), 0, query, ef, seq![p]) {
                    Err(err) => Err(err),
                    Ok(w) => match score_ids(w, contents, to_query(kernel, self.spec_metric(), query)) {
                        Ok(s) => Ok(top_k_by_score(s, k)),
                        Err(err) => Err(err),
                    },
                },
            },
        }
    }

    /// What neighbour selection gives for the query among `w`: the
    /// heuristic's choice when the graph uses it (its flags defaulting to the
    /// graph's), otherwise the `m` nearest of the stored ones, nearest first.
    pub open spec fn selection<K: Fn(MetricsName, &[u32], &[u32]) -> Result<u32, VestoError>>(
        &self,
        contents: Map<u64, Seq<u32>>,
        kernel: K,
        query: Seq<u32>,
        w: Seq<EntityId>,
        m: nat,
        extend_candidates: Option<bool>,
        keep_pruned_connections: Option<bool>,
    ) -> Result<Seq<Scored>, VestoError> {
        select_spec(kernel, self.spec_metric(), contents, self.spec_layers(), self.spec_heuristic(), self.spec_extend(),
            self.spec_keep_pruned(), query, w, m, extend_candidates, keep_pruned_connections)
    }

    /// Chooses up to `m` neighbours for the query among `w`: by the
    /// heuristic when the graph uses it (with the flags defaulting to the
    /// graph's), otherwise the `m` nearest of the stored ones, nearest first.
    pub fn select_neighbors<K: Fn(MetricsName, &[u32], &[u32]) -> Result<u32, VestoError>>(
        &self,
        store: &VestoStore,
        kernel: &K,
        query: &[u32],
        w: &[EntityId],
        m: usize,
        extend_candidates: Option<bool>,
        keep_pruned_connections: Option<bool>,
    ) -> (r: Result<Vec<Scored>, VestoError>)
        requires
            self.wf(),
            store.wf(),
            self.within(store),
            store.rows_exist_for(w@),
            kernel_ok(*kernel),
            self.spec_heuristic() && extend_candidates.unwrap_or(self.spec_extend()) ==> self.spec_layers().len() > 0,
        ensures
            match self.selection(store.contents(), *kernel, query@, w@, m as nat, extend_candidates, keep_pruned_connections) {
                Ok(s) => r matches Ok(v) && v@ == s,
                Err(e) => r == Err::<Vec<Scored>, VestoError>(e),
            },
            self.spec_heuristic() ==> (r matches Ok(v) ==> {
                &&& v@.len() <= m
                &&& forall|i: int| 0 <= i < v@.len() ==> scored_right(store.contents(), *kernel, self.spec_metric(), query@, #[trigger] v@[i])
                &&& forall|i: int| 0 <= i < v@.len() ==> heuristic_origin(self.spec_layers(), 0, w@,
                        extend_candidates.unwrap_or(self.spec_extend()), (#[trigger] v@[i]).1)
            }),
    {
        if self.use_heuristic_selection {
            let ext = match extend_candidates { Some(b) => b, None => self.heuristic_extend_candidates };
            let keep = match keep_pruned_connections { Some(b) => b, None => self.heuristic_keep_pruned_connections };
            let cands = slice_to_vec(w);
            return self.select_neighbors_heuristic(store, kernel, query, cands, m, 0, ext, keep);
        }
        let scores = score_entities(w, store, kernel, self.metric.name(), query)?;
        Ok(rank_top_k(&scores, m))
    }
}

/// A copy of a list of ids.
fn slice_to_vec(s: &[EntityId]) -> (r: Vec<EntityId>)
    ensures
        r@ == s@,
{
    let mut r: Vec<EntityId> = Vec::new();
    let mut i: usize = 0;
    while i < s.len()
        invariant
            i <= s@.len(),
            r@ == s@.take(i as int),
        decreases s.len() - i,
    {
        r.push(s[i]);
        i = i + 1;
        proof {
            assert(r@ =~= s@.take(i as int));
        }
    }
    proof {
        assert(s@.take(i as int) =~= s@);
    }
    r
}


impl HNSWGraph {
    /// Chosen neighbours are at most `m`, correctly scored, and (without the
    /// heuristic) nearest first.
    proof fn lemma_selected_props<K: Fn(MetricsName, &[u32], &[u32]) -> Result<u32, VestoError>>(
        &self,
        store: &VestoStore,
        kernel: K,
        query: Seq<u32>,
        w: Seq<EntityId>,
        m: usize,
        ext: bool,
        v: Seq<Scored>,
    )
        requires
            !self.spec_heuristic() ==> (score_ids(w, store.contents(), to_query(kernel, self.spec_metric(), query)) matches Ok(s)
                && v == top_k_by_score(s, m as nat)),
            self.spec_heuristic() ==> {
                &&& v.len() <= m
                &&& forall|i: int| 0 <= i < v.len() ==> scored_right(store.contents(), kernel, self.spec_metric(), query, #[trigger] v[i])
            },
        ensures
            v.len() <= m,
            forall|i: int| 0 <= i < v.len() ==> scored_right(store.contents(), kernel, self.spec_metric(), query, #[trigger] v[i]),
            !self.spec_heuristic() ==> sorted_by_score(v),
    {
        if !self.spec_heuristic() {
            let f = to_query(kernel, self.spec_metric(), query);
            let s = score_ids(w, store.contents(), f)->Ok_0;
            lemma_score_ids_props(w, store.contents(), f);
            lemma_top_k_props(s, m as nat);
            assert forall|i: int| 0 <= i < v.len() implies
                scored_right(store.contents(), kernel, self.spec_metric(), query, #[trigger] v[i]) by {
                assert(s.contains(v[i]));
                let j = choose|j: int| 0 <= j < s.len() && s[j] == v[i];
                assert(w.contains(s[j].1));
            }
        }
    }

    /// The `k` nearest neighbours of the query found by descending the
    /// layers greedily from the entry point and searching the bottom layer
    /// with a beam of `ef`. Fails with `EmptyIndex` on an empty graph.
    pub fn knn_search<K: Fn(MetricsName, &[u32], &[u32]) -> Result<u32, VestoError>>(
        &self,
        store: &VestoStore,
        kernel: &K,
        query: &[u32],
        k: usize,
        ef: usize,
    ) -> (r: Result<Vec<Scored>, VestoError>)
        requires
            self.wf(),
            store.wf(),
            self.within(store),
            kernel_ok(*kernel),
        ensures
            self.spec_entry() is None ==> r == Err::<Vec<Scored>, VestoError>(VestoError::EmptyIndex),
            r matches Ok(v) ==> {
                &&& v@.len() <= k
                &&& forall|i: int| 0 <= i < v@.len() ==> scored_right(store.contents(), *kernel, self.spec_metric(), query@, #[trigger] v@[i])
                &&& sorted_by_score(v@)
            },
            r matches Ok(v) ==> self.knn_result(store.contents(), *kernel, query@, k as nat, ef as nat)
                == Ok::<Seq<Scored>, VestoError>(v@),
            r matches Err(e) ==> self.knn_result(store.contents(), *kernel, query@, k as nat, ef as nat)
                == Err::<Seq<Scored>, VestoError>(e),
    {
        let ghost layers = self.spec_layers();
        let ghost contents = store.contents();
        let ghost m = self.spec_metric();
        let entry = match self.entry_point {
            Some(e) => e,
            None => return Err(VestoError::EmptyIndex),
        };
        proof {
            assert(layers[0].contains_key(entry.0));
            assert(store.contents().contains_key(entry.0));
        }
        let mut ep: Vec<EntityId> = vec![entry];
        let mut lc = self.layers.len() - 1;
        let ghost top: int = lc as int;
        while lc >= 1
            invariant
                self.wf(),
                store.wf(),
                self.within(store),
                kernel_ok(*kernel),
                layers == self.spec_layers(),
                contents == store.contents(),
                m == self.spec_metric(),
                lc < layers.len(),
                ep@.len() == 1,
                store.contents().contains_key(ep@[0].0),
                descend(*kernel, m, contents, layers, query@, entry, top, 0) == descend(*kernel, m, contents, layers, query@, ep@[0], lc as int, 0),
                self.spec_entry() == Some(entry),
                top == layers.len() - 1,
            decreases lc,
        {
            proof {
                assert(ep@ =~= seq![ep@[0]]);
            }
            let w = match self.search_layer(store, kernel, query, &ep, 1, lc) {
                Ok(w) => w,
                Err(e) => {
                    proof {
                        assert(descend(*kernel, m, contents, layers, query@, ep@[0], lc as int, 0) == Err::<EntityId, VestoError>(e));
                    }
                    return Err(e);
                },
            };
            let found = match self.nearest_element(store, kernel, &w, query) {
                Ok(f) => f,
                Err(e) => {
                    proof {
                        assert(descend(*kernel, m, contents, layers, query@, ep@[0], lc as int, 0) == Err::<EntityId, VestoError>(e));
                    }
                    return Err(e);
                },
            };
            match found {
                Some((_, n_el)) => {
                    ep = vec![n_el];
                },
                None => {},
            }
            lc = lc - 1;
        }
        proof {
            assert(ep@ =~= seq![ep@[0]]);
        }
        let w = match self.search_layer(store, kernel, query, &ep, ef, 0) {
            Ok(w) => w,
            Err(e) => {
                return Err(e);
            },
        };
        let scores = match score_entities(w.as_slice(), store, kernel, self.metric.name(), query) {
            Ok(s) => s,
            Err(e) => {
                return Err(e);
            },
        };
        let r = rank_top_k(&scores, k);
        proof {
            let f = to_query(*kernel, m, query@);
            lemma_score_ids_props(w@, contents, f);
            lemma_top_k_props(scores@, k as nat);
            assert forall|i: int| 0 <= i < r@.len() implies scored_right(contents, *kernel, m, query@, #[trigger] r@[i]) by {
                assert(scores@.contains(r@[i]));
                let j = choose|j: int| 0 <= j < scores@.len() && scores@[j] == r@[i];
            }
        }
        Ok(r)
    }
}


/// Setting one node's neighbour list on one layer, where the node and the
/// list are stored, keeps the graph's shape and keeps it within the store.
proof fn lemma_set_list_keeps(
    old_layers: LayersView,
    new_layers: LayersView,
    entry: Option<EntityId>,
    lc: int,
    key: u64,
    list: Seq<EntityId>,
    contents: Map<u64, Seq<u32>>,
)
    requires
        0 <= lc < old_layers.len(),
        new_layers == old_layers.update(lc, old_layers[lc].insert(key, list)),
        graph_wf(old_layers, entry),
        mentions_within(old_layers, |k: u64| contents.contains_key(k)),
        contents.contains_key(key),
        forall|i: int| 0 <= i < list.len() ==> contents.contains_key((#[trigger] list[i]).0),
    ensures
        graph_wf(new_layers, entry),
        mentions_within(new_layers, |k: u64| contents.contains_key(k)),
        new_layers.len() == old_layers.len(),
        forall|l: int, k: u64| 0 <= l < old_layers.len() && #[trigger] old_layers[l].contains_key(k) ==> new_layers[l].contains_key(k),
{
    assert forall|l: int, k: u64| 0 <= l < new_layers.len() && #[trigger] new_layers[l].contains_key(k) implies contents.contains_key(k) by {
        if l == lc && k != key {
            assert(old_layers[l].contains_key(k));
        } else if l != lc {
            assert(old_layers[l] == new_layers[l]);
        }
    }
    assert forall|l: int, k: u64, i: int| 0 <= l < new_layers.len() && new_layers[l].contains_key(k) && 0 <= i < new_layers[l][k].len()
        implies contents.contains_key((#[trigger] new_layers[l][k][i]).0) by {
        if l == lc && k == key {
            assert(new_layers[l][k] == list);
        } else if l == lc {
            assert(new_layers[l][k] == old_layers[l][k]);
            assert(old_layers[l].contains_key(k));
        } else {
            assert(old_layers[l] == new_layers[l]);
        }
    }
    if let Some(e) = entry {
        assert forall|l: int| 0 <= l < new_layers.len() implies #[trigger] new_layers[l].contains_key(e.0) by {
            assert(old_layers[l].contains_key(e.0));
        }
    }
}

impl HNSWGraph {
    /// Sets a node's neighbour list on layer `lc`.
    fn set_neighbours(&mut self, lc: usize, key: EntityId, list: Vec<EntityId>)
        requires
            lc < old(self).spec_layers().len(),
        ensures
            final(self).spec_layers() == old(self).spec_layers().update(lc as int, old(self).spec_layers()[lc as int].insert(key.0, list@)),
            final(self).spec_entry() == old(self).spec_entry(),
            final(self).spec_metric() == old(self).spec_metric(),
            final(self).spec_heuristic() == old(self).spec_heuristic(),
            final(self).spec_extend() == old(self).spec_extend(),
            final(self).spec_keep_pruned() == old(self).spec_keep_pruned(),
    {
        let ghost list_view = list@;
        self.layers[lc].adjacency.insert(key.0, list);
        proof {
            let nl = self.layers@[lc as int].adjacency@.map_values(|v: Vec<EntityId>| v@);
            assert(nl =~= old(self).spec_layers()[lc as int].insert(key.0, list_view));
            assert(self.spec_layers() =~= old(self).spec_layers().update(lc as int, old(self).spec_layers()[lc as int].insert(key.0, list_view)));
        }
    }

    /// Appends `x` to a node's neighbour list on layer `lc` (starting the
    /// list if the node has none).
    fn push_neighbour(&mut self, lc: usize, key: EntityId, x: EntityId)
        requires
            lc < old(self).spec_layers().len(),
        ensures
            final(self).spec_layers() == old(self).spec_layers().update(lc as int,
                old(self).spec_layers()[lc as int].insert(key.0, neighbours(old(self).spec_layers(), lc as int, key.0).push(x))),
            final(self).spec_entry() == old(self).spec_entry(),
            final(self).spec_metric() == old(self).spec_metric(),
            final(self).spec_heuristic() == old(self).spec_heuristic(),
            final(self).spec_extend() == old(self).spec_extend(),
            final(self).spec_keep_pruned() == old(self).spec_keep_pruned(),
    {
        let ghost before = self.spec_layers();
        let mut list = match self.layers[lc].adjacency.remove(&key.0) {
            Some(v) => v,
            None => Vec::new(),
        };
        proof {
            assert(list@ == neighbours(before, lc as int, key.0));
        }
        list.push(x);
        let ghost list_view = list@;
        self.layers[lc].adjacency.insert(key.0, list);
        proof {
            let nl = self.layers@[lc as int].adjacency@.map_values(|v: Vec<EntityId>| v@);
            assert(nl =~= before[lc as int].insert(key.0, list_view));
            assert(self.spec_layers() =~= before.update(lc as int, before[lc as int].insert(key.0, list_view)));
        }
    }

    /// Adds an empty top layer.
    fn add_layer(&mut self)
        ensures
            final(self).spec_layers() == old(self).spec_layers().push(Map::<u64, Seq<EntityId>>::empty()),
            final(self).spec_entry() == old(self).spec_entry(),
            final(self).spec_metric() == old(self).spec_metric(),
            final(self).spec_heuristic() == old(self).spec_heuristic(),
            final(self).spec_extend() == old(self).spec_extend(),
            final(self).spec_keep_pruned() == old(self).spec_keep_pruned(),
    {
        let layer = Layer { adjacency: HashMap::new() };
        proof {
            assert(layer.adjacency@.map_values(|v: Vec<EntityId>| v@) =~= Map::<u64, Seq<EntityId>>::empty());
        }
        self.layers.push(layer);
        proof {
            assert(self.spec_layers() =~= old(self).spec_layers().push(Map::<u64, Seq<EntityId>>::empty()));
        }
    }
}

/// The ids of scored entities.
fn ids_of(v: &Vec<Scored>) -> (r: Vec<EntityId>)
    ensures
        r@.len() == v@.len(),
        forall|i: int| 0 <= i < v@.len() ==> #[trigger] r@[i] == v@[i].1,
{
    let mut r: Vec<EntityId> = Vec::new();
    let mut i: usize = 0;
    while i < v.len()
        invariant
            i <= v@.len(),
            r@.len() == i,
            forall|j: int| 0 <= j < i ==> #[trigger] r@[j] == v@[j].1,
        decreases v.len() - i,
    {
        r.push(v[i].1);
        i = i + 1;
    }
    r
}


/// The ids of scored entities.
pub open spec fn ids_seq(v: Seq<Scored>) -> Seq<EntityId> {
    v.map_values(|x: Scored| x.1)
}

/// Linking back to `item` from the chosen neighbours `nbrs[j..]` on layer
/// `lc`, in order: each gets `item` appended to its list, and a list grown
/// past `mmax` is replaced by the selection (with the graph's own flags)
/// of `mmax` among it for that neighbour's vector.
pub open spec fn link_back<K: Fn(MetricsName, &[u32], &[u32]) -> Result<u32, VestoError>>(
    kernel: K,
    m: MetricsName,
    contents: Map<u64, Seq<u32>>,
    heuristic: bool,
    extend_default: bool,
    keep_default: bool,
    layers: LayersView,
    lc: int,
    item: EntityId,
    nbrs: Seq<Scored>,
    j: int,
    mmax: nat,
) -> Result<LayersView, VestoError>
    decreases nbrs.len() - j,
{
    if j >= nbrs.len() {
        Ok(layers)
    } else {
        let e = nbrs[j].1;
        let l1 = layers.update(lc, layers[lc].insert(e.0, neighbours(layers, lc, e.0).push(item)));
        let conn = neighbours(l1, lc, e.0);
        if conn.len() > mmax {
            if !contents.contains_key(e.0) {
                Err(VestoError::KeyNotFound)
            } else {
                match select_spec(kernel, m, contents, l1, heuristic, extend_default, keep_default, contents[e.0], conn, mmax, None, None) {
                    Err(err) => Err(err),
                    Ok(sel) => link_back(kernel, m, contents, heuristic, extend_default, keep_default,
                        l1.update(lc, l1[lc].insert(e.0, ids_seq(sel))), lc, item, nbrs, j + 1, mmax),
                }
            }
        } else {
            link_back(kernel, m, contents, heuristic, extend_default, keep_default, l1, lc, item, nbrs, j + 1, mmax)
        }
    }
}

/// Linking `item` (whose vector is `query`) into layer `lc` from the entry
/// points `ep`: a beam search of width `efc`, the selection of `mm` among
/// what it finds as the item's list on the layer, then linking back. Gives
/// the new layers and what the search found.
pub open spec fn link_layer<K: Fn(MetricsName, &[u32], &[u32]) -> Result<u32, VestoError>>(
    kernel: K,
    m: MetricsName,
    contents: Map<u64, Seq<u32>>,
    heuristic: bool,
    extend_default: bool,
    keep_default: bool,
    layers: LayersView,
    query: Seq<u32>,
    item: EntityId,
    ep: Seq<EntityId>,
    lc: int,
    mm: nat,
    mmax: nat,
    efc: nat,
    extend_candidates: Option<bool>,
    keep_pruned_connections: Option<bool>,
) -> Result<(LayersView, Seq<EntityId>), VestoError> {
    match beam_outcome(kernel, m, contents, layers, lc, query, efc, ep) {
        Err(e) => Err(e),
        Ok(w) => match select_spec(kernel, m, contents, layers, heuristic, extend_default, keep_default, query, w, mm,
            extend_candidates, keep_pruned_connections) {
            Err(e) => Err(e),
            Ok(nbrs) => match link_back(kernel, m, contents, heuristic, extend_default, keep_default,
                layers.update(lc, layers[lc].insert(item.0, ids_seq(nbrs))), lc, item, nbrs, 0, mmax) {
                Err(e) => Err(e),
                Ok(l2) => Ok((l2, w)),
            },
        },
    }
}

/// Linking `item` into layers `lc_next - 1` down to 0 in turn, each from
/// what the search on the layer above found (the first from `ep`); the
/// bottom layer allows `2 * mm` connections per node, the others `m_max`.
pub open spec fn link_down<K: Fn(MetricsName, &[u32], &[u32]) -> Result<u32, VestoError>>(
    kernel: K,
    m: MetricsName,
    contents: Map<u64, Seq<u32>>,
    heuristic: bool,
    extend_default: bool,
    keep_default: bool,
    layers: LayersView,
    query: Seq<u32>,
    item: EntityId,
    ep: Seq<EntityId>,
    lc_next: int,
    mm: nat,
    m_max: nat,
    efc: nat,
    extend_candidates: Option<bool>,
    keep_pruned_connections: Option<bool>,
) -> Result<LayersView, VestoError>
    decreases lc_next,
{
    if lc_next <= 0 {
        Ok(layers)
    } else {
        let lc = lc_next - 1;
        let mmax: nat = if lc == 0 { 2 * mm } else { m_max };
        match link_layer(kernel, m, contents, heuristic, extend_default, keep_default, layers, query, item, ep, lc, mm, mmax, efc,
            extend_candidates, keep_pruned_connections) {
            Err(e) => Err(e),
            Ok((l2, w)) => link_down(kernel, m, contents, heuristic, extend_default, keep_default, l2, query, item, w, lc, mm, m_max, efc,
                extend_candidates, keep_pruned_connections),
        }
    }
}

/// `layers` followed by layers up to `level` on which `item` links to `p`.
pub open spec fn raise(layers: LayersView, level: int, item: EntityId, p: EntityId) -> LayersView {
    layers + Seq::new((level + 1 - layers.len()) as nat, |i: int| Map::<u64, Seq<EntityId>>::empty().insert(item.0, seq![p]))
}

/// What inserting `item` at `level` into a graph with these layers and
/// entry point gives (its layers and entry point): the first item makes
/// layers 0 to `level` holding it alone, and becomes the entry point;
/// otherwise the greedy descent from the entry point to the layer above
/// `level`, linking into the layers from `min(top, level)` down to 0, and,
/// when `level` is above the top layer, new layers up to `level` on which
/// the item links to the old entry point, the item becoming the entry
/// point.
#[verifier::opaque]
pub open spec fn insert_spec<K: Fn(MetricsName, &[u32], &[u32]) -> Result<u32, VestoError>>(
    kernel: K,
    m: MetricsName,
    contents: Map<u64, Seq<u32>>,
    heuristic: bool,
    extend_default: bool,
    keep_default: bool,
    layers: LayersView,
    entry: Option<EntityId>,
    item: EntityId,
    mm: nat,
    m_max: nat,
    efc: nat,
    level: int,
    extend_candidates: Option<bool>,
    keep_pruned_connections: Option<bool>,
) -> Result<(LayersView, Option<EntityId>), VestoError> {
    match entry {
        None => Ok((Seq::new((level + 1) as nat, |i: int| Map::<u64, Seq<EntityId>>::empty().insert(item.0, Seq::<EntityId>::empty())), Some(item))),
        Some(e) => if !contents.contains_key(item.0) {
            Err(VestoError::KeyNotFound)
        } else {
            let query = contents[item.0];
            let top = layers.len() - 1;
            match descend(kernel, m, contents, layers, query, e, top, level) {
                Err(err) => Err(err),
                Ok(p) => {
                    let low_top = if top < level { top } else { level };
                    match link_down(kernel, m, contents, heuristic, extend_default, keep_default, layers, query, item, seq![p],
                        low_top + 1, mm, m_max, efc, extend_candidates, keep_pruned_connections) {
                        Err(err) => Err(err),
                        Ok(l2) => if level > top { Ok((raise(l2, level, item, e), Some(item))) } else { Ok((l2, entry)) },
                    }
                },
            }
        },
    }
}

/// Every node on every layer of `old` is still there in `new`.
pub open spec fn keeps_nodes(old_layers: LayersView, new_layers: LayersView) -> bool {
    &&& old_layers.len() <= new_layers.len()
    &&& forall|l: int, k: u64| 0 <= l < old_layers.len() && #[trigger] old_layers[l].contains_key(k) ==> new_layers[l].contains_key(k)
}

impl HNSWGraph {
    /// The settings other than the layers and entry point are the same.
    pub open spec fn same_settings(&self, other: &HNSWGraph) -> bool {
        &&& self.spec_metric() == other.spec_metric()
        &&& self.spec_heuristic() == other.spec_heuristic()
        &&& self.spec_extend() == other.spec_extend()
        &&& self.spec_keep_pruned() == other.spec_keep_pruned()
    }

    /// Links `item` into layer `lc`: searches the layer from `ep`, chooses
    /// up to `m` neighbours, connects both ways, and shrinks any neighbour's
    /// list that grows past `mmax`. Returns the search's result as the next
    /// entry points.
    fn link_at_layer<K: Fn(MetricsName, &[u32], &[u32]) -> Result<u32, VestoError>>(
        &mut self,
        store: &VestoStore,
        kernel: &K,
        item: EntityId,
        query: &[u32],
        ep: &Vec<EntityId>,
        lc: usize,
        m: usize,
        mmax: usize,
        ef_construction: usize,
        extend_candidates: Option<bool>,
        keep_pruned_connections: Option<bool>,
    ) -> (r: Result<Vec<EntityId>, VestoError>)
        requires
            old(self).wf(),
            store.wf(),
            old(self).within(store),
            kernel_ok(*kernel),
            lc < old(self).spec_layers().len(),
            store.contents().contains_key(item.0),
            forall|i: int| 0 <= i < ep@.len() ==> store.contents().contains_key((#[trigger] ep@[i]).0),
        ensures
            final(self).wf(),
            final(self).within(store),
            final(self).spec_layers().len() == old(self).spec_layers().len(),
            final(self).spec_entry() == old(self).spec_entry(),
            final(self).same_settings(old(self)),
            keeps_nodes(old(self).spec_layers(), final(self).spec_layers()),
            r matches Ok(w) ==> {
                &&& final(self).spec_layers()[lc as int].contains_key(item.0)
                &&& forall|i: int| 0 <= i < w@.len() ==> store.contents().contains_key((#[trigger] w@[i]).0)
            },
            match link_layer(*kernel, old(self).spec_metric(), store.contents(), old(self).spec_heuristic(), old(self).spec_extend(),
                old(self).spec_keep_pruned(), old(self).spec_layers(), query@, item, ep@, lc as int, m as nat, mmax as nat,
                ef_construction as nat, extend_candidates, keep_pruned_connections) {
                Ok((l2, w2)) => r matches Ok(w) && w@ == w2 && final(self).spec_layers() == l2,
                Err(e) => r == Err::<Vec<EntityId>, VestoError>(e),
            },
    {
        let ghost contents = store.contents();
        let ghost start = self.spec_layers();
        let ghost mt = self.spec_metric();
        let ghost heur = self.spec_heuristic();
        let ghost ext_d = self.spec_extend();
        let ghost keep_d = self.spec_keep_pruned();
        let w = match self.search_layer(store, kernel, query, ep, ef_construction, lc) {
            Ok(w) => w,
            Err(e) => {
                return Err(e);
            },
        };
        let neighbors = match self.select_neighbors(store, kernel, query, w.as_slice(), m, extend_candidates, keep_pruned_connections) {
            Ok(n) => n,
            Err(e) => {
                return Err(e);
            },
        };
        proof {
            self.lemma_selected_props(store, *kernel, query@, w@, m, extend_candidates.unwrap_or(self.spec_extend()), neighbors@);
        }
        let ids = ids_of(&neighbors);
        let ghost before = self.spec_layers();
        self.set_neighbours(lc, item, ids);
        proof {
            assert(ids@ =~= ids_seq(neighbors@));
            lemma_set_list_keeps(before, self.spec_layers(), self.spec_entry(), lc as int, item.0, ids@, contents);
        }
        let ghost l1 = self.spec_layers();
        proof {
            assert(l1 == start.update(lc as int, start[lc as int].insert(item.0, ids_seq(neighbors@))));
        }
        let mut i: usize = 0;
        while i < neighbors.len()
            invariant
                self.wf(),
                store.wf(),
                self.within(store),
                kernel_ok(*kernel),
                contents == store.contents(),
                lc < self.spec_layers().len(),
                self.spec_layers().len() == start.len(),
                start == old(self).spec_layers(),
                self.spec_entry() == old(self).spec_entry(),
                self.same_settings(old(self)),
                keeps_nodes(start, self.spec_layers()),
                self.spec_layers()[lc as int].contains_key(item.0),
                contents.contains_key(item.0),
                forall|j: int| 0 <= j < neighbors@.len() ==> contents.contains_key((#[trigger] neighbors@[j]).1.0),
                i <= neighbors@.len(),
                mt == self.spec_metric(),
                heur == self.spec_heuristic(),
                ext_d == self.spec_extend(),
                keep_d == self.spec_keep_pruned(),
                link_back(*kernel, mt, contents, heur, ext_d, keep_d, l1, lc as int, item, neighbors@, 0, mmax as nat)
                    == link_back(*kernel, mt, contents, heur, ext_d, keep_d, self.spec_layers(), lc as int, item, neighbors@, i as int, mmax as nat),
                link_layer(*kernel, mt, contents, heur, ext_d, keep_d, start, query@, item, ep@, lc as int, m as nat, mmax as nat,
                    ef_construction as nat, extend_candidates, keep_pruned_connections)
                    == match link_back(*kernel, mt, contents, heur, ext_d, keep_d, l1, lc as int, item, neighbors@, 0, mmax as nat) {
                        Ok(l2) => Ok::<(LayersView, Seq<EntityId>), VestoError>((l2, w@)),
                        Err(e) => Err::<(LayersView, Seq<EntityId>), VestoError>(e),
                    },
            decreases neighbors.len() - i,
        {
            let e = neighbors[i].1;
            let ghost b1 = self.spec_layers();
            self.push_neighbour(lc, e, item);
            proof {
                let list = neighbours(b1, lc as int, e.0).push(item);
                assert forall|q: int| 0 <= q < list.len() implies contents.contains_key((#[trigger] list[q]).0) by {
                    if q < list.len() - 1 {
                        assert(list[q] == b1[lc as int][e.0][q]);
                    }
                }
                lemma_set_list_keeps(b1, self.spec_layers(), self.spec_entry(), lc as int, e.0, list, contents);
            }
            let e_conn = slice_to_vec(self.neighbourhood(&e, lc));
            if e_conn.len() > mmax {
                let e_vector = match store.get(&e) {
                    Some(v) => v,
                    None => return Err(VestoError::KeyNotFound),
                };
                proof {
                    let ls = self.spec_layers();
                    assert forall|q: int| 0 <= q < e_conn@.len() implies contents.contains_key((#[trigger] e_conn@[q]).0) by {
                        assert(ls[lc as int].contains_key(e.0)) by {
                            if !ls[lc as int].contains_key(e.0) {
                                assert(e_conn@.len() == 0);
                            }
                        }
                        assert(e_conn@[q] == ls[lc as int][e.0][q]);
                    }
                }
                let e_new_conn = match self.select_neighbors(store, kernel, e_vector.as_slice(), e_conn.as_slice(), mmax, None, None) {
                    Ok(n) => n,
                    Err(err) => {
                        proof {
                            assert(link_back(*kernel, mt, contents, heur, ext_d, keep_d, b1, lc as int, item, neighbors@, i as int, mmax as nat)
                                == Err::<LayersView, VestoError>(err));
                        }
                        return Err(err);
                    },
                };
                proof {
                    self.lemma_selected_props(store, *kernel, e_vector@, e_conn@, mmax, self.spec_extend(), e_new_conn@);
                }
                let new_ids = ids_of(&e_new_conn);
                let ghost b2 = self.spec_layers();
                self.set_neighbours(lc, e, new_ids);
                proof {
                    assert(new_ids@ =~= ids_seq(e_new_conn@));
                    assert forall|q: int| 0 <= q < new_ids@.len() implies contents.contains_key((#[trigger] new_ids@[q]).0) by {
                        assert(new_ids@[q] == e_new_conn@[q].1);
                    }
                    lemma_set_list_keeps(b2, self.spec_layers(), self.spec_entry(), lc as int, e.0, new_ids@, contents);
                }
            }
            i = i + 1;
        }
        Ok(w)
    }
}


impl HNSWGraph {
    /// Inserts a stored entity with the given level: descends greedily to
    /// the level, then links it into every layer from there down to the
    /// bottom; when the level is above the top layer, new layers are added
    /// on which it links to the old entry point, and it becomes the entry
    /// point. The first entity starts the graph on layers 0 to its level.
    pub fn insert<K: Fn(MetricsName, &[u32], &[u32]) -> Result<u32, VestoError>>(
        &mut self,
        store: &VestoStore,
        kernel: &K,
        item: EntityId,
        m: usize,
        m_max: usize,
        ef_construction: usize,
        level: usize,
        extend_candidates: Option<bool>,
        keep_pruned_connections: Option<bool>,
    ) -> (r: Result<(), VestoError>)
        requires
            old(self).wf(),
            store.wf(),
            old(self).within(store),
            kernel_ok(*kernel),
            old(self).spec_entry() is Some ==> store.contents().contains_key(item.0),
            level < usize::MAX,
            m <= usize::MAX / 2,
        ensures
            final(self).wf(),
            store.contents().contains_key(item.0) ==> final(self).within(store),
            final(self).same_settings(old(self)),
            keeps_nodes(old(self).spec_layers(), final(self).spec_layers()),
            r is Ok ==> {
                &&& final(self).spec_layers().len() == if old(self).spec_layers().len() <= level { (level + 1) as nat } else { old(self).spec_layers().len() }
                &&& forall|lc: int| 0 <= lc <= level ==> #[trigger] final(self).spec_layers()[lc].contains_key(item.0)
                &&& final(self).spec_entry() == if old(self).spec_layers().len() <= level { Some(item) } else { old(self).spec_entry() }
            },
            r is Ok ==> insert_spec(*kernel, old(self).spec_metric(), store.contents(), old(self).spec_heuristic(), old(self).spec_extend(),
                old(self).spec_keep_pruned(), old(self).spec_layers(), old(self).spec_entry(), item, m as nat, m_max as nat,
                ef_construction as nat, level as int, extend_candidates, keep_pruned_connections)
                == Ok::<(LayersView, Option<EntityId>), VestoError>((final(self).spec_layers(), final(self).spec_entry())),
            r matches Err(e) ==> insert_spec(*kernel, old(self).spec_metric(), store.contents(), old(self).spec_heuristic(), old(self).spec_extend(),
                old(self).spec_keep_pruned(), old(self).spec_layers(), old(self).spec_entry(), item, m as nat, m_max as nat,
                ef_construction as nat, level as int, extend_candidates, keep_pruned_connections)
                == Err::<(LayersView, Option<EntityId>), VestoError>(e),
    {
        reveal(insert_spec);
        let ghost contents = store.contents();
        let ghost start = self.spec_layers();
        let ghost mt = self.spec_metric();
        let ghost heur = self.spec_heuristic();
        let ghost ext_d = self.spec_extend();
        let ghost keep_d = self.spec_keep_pruned();
        if self.entry_point.is_none() {
            let r = self.fresh_start_insert(item, level);
            proof {
                let ls = self.spec_layers();
                assert(ls =~= Seq::new((level + 1) as nat, |i: int| Map::<u64, Seq<EntityId>>::empty().insert(item.0, Seq::<EntityId>::empty())));
                if contents.contains_key(item.0) {
                    assert forall|l: int, k: u64| 0 <= l < ls.len() && #[trigger] ls[l].contains_key(k) implies contents.contains_key(k) by {
                        assert(ls[l] == Map::<u64, Seq<EntityId>>::empty().insert(item.0, Seq::empty()));
                    }
                    assert forall|l: int, k: u64, i: int| 0 <= l < ls.len() && ls[l].contains_key(k) && 0 <= i < ls[l][k].len()
                        implies contents.contains_key((#[trigger] ls[l][k][i]).0) by {
                        assert(ls[l] == Map::<u64, Seq<EntityId>>::empty().insert(item.0, Seq::empty()));
                    }
                }
            }
            return r;
        }
        let query = match store.get(&item) {
            Some(v) => v,
            None => return Err(VestoError::KeyNotFound),
        };
        let top = self.layers.len() - 1;
        let entry = match self.entry_point {
            Some(e) => e,
            None => item,
        };
        proof {
            assert(start[0].contains_key(entry.0));
        }
        let mut ep: Vec<EntityId> = vec![entry];
        let mut lc = top;
        while lc > level
            invariant
                self.wf(),
                store.wf(),
                self.within(store),
                kernel_ok(*kernel),
                self.spec_layers() == start,
                self.spec_entry() == old(self).spec_entry(),
                self.same_settings(old(self)),
                start == old(self).spec_layers(),
                lc < start.len(),
                ep@.len() == 1,
                store.contents().contains_key(ep@[0].0),
                contents == store.contents(),
                mt == self.spec_metric(),
                heur == self.spec_heuristic(),
                ext_d == self.spec_extend(),
                keep_d == self.spec_keep_pruned(),
                self.spec_entry() == Some(entry),
                top == start.len() - 1,
                contents.contains_key(item.0),
                query@ == contents[item.0],
                descend(*kernel, mt, contents, start, query@, entry, top as int, level as int)
                    == descend(*kernel, mt, contents, start, query@, ep@[0], lc as int, level as int),
            decreases lc,
        {
            proof {
                assert(ep@ =~= seq![ep@[0]]);
            }
            let w = match self.search_layer(store, kernel, query.as_slice(), &ep, 1, lc) {
                Ok(w) => w,
                Err(e) => {
                    proof {
                        assert(descend(*kernel, mt, contents, start, query@, ep@[0], lc as int, level as int) == Err::<EntityId, VestoError>(e));
                        assert(descend(*kernel, mt, contents, start, contents[item.0], entry, start.len() - 1, level as int) == Err::<EntityId, VestoError>(e));
                        reveal(insert_spec);
                        assert(insert_spec(*kernel, mt, contents, heur, ext_d, keep_d, start, Some(entry), item, m as nat, m_max as nat, ef_construction as nat, level as int, extend_candidates, keep_pruned_connections) == Err::<(LayersView, Option<EntityId>), VestoError>(e));
                    }
                    return Err(e);
                },
            };
            let found = match self.nearest_element(store, kernel, &w, query.as_slice()) {
                Ok(f) => f,
                Err(e) => {
                    proof {
                        assert(descend(*kernel, mt, contents, start, query@, ep@[0], lc as int, level as int) == Err::<EntityId, VestoError>(e));
                        assert(descend(*kernel, mt, contents, start, contents[item.0], entry, start.len() - 1, level as int) == Err::<EntityId, VestoError>(e));
                        reveal(insert_spec);
                        assert(insert_spec(*kernel, mt, contents, heur, ext_d, keep_d, start, Some(entry), item, m as nat, m_max as nat, ef_construction as nat, level as int, extend_candidates, keep_pruned_connections) == Err::<(LayersView, Option<EntityId>), VestoError>(e));
                    }
                    return Err(e);
                },
            };
            match found {
                Some((_, n_el)) => {
                    ep = vec![n_el];
                },
                None => {},
            }
            lc = lc - 1;
        }
        let ghost p0 = ep@[0];
        proof {
            assert(ep@ =~= seq![p0]);
            assert(descend(*kernel, mt, contents, start, query@, entry, top as int, level as int) == Ok::<EntityId, VestoError>(p0));
        }
        let low_top = if top < level { top } else { level };
        let mut lc_next = low_top + 1;
        while lc_next > 0
            invariant
                self.wf(),
                store.wf(),
                self.within(store),
                kernel_ok(*kernel),
                contents == store.contents(),
                contents.contains_key(item.0),
                self.spec_layers().len() == start.len(),
                self.spec_entry() == old(self).spec_entry(),
                self.same_settings(old(self)),
                start == old(self).spec_layers(),
                keeps_nodes(start, self.spec_layers()),
                low_top < start.len(),
                low_top <= level,
                lc_next <= low_top + 1,
                forall|l: int| lc_next <= l <= low_top ==> #[trigger] self.spec_layers()[l].contains_key(item.0),
                forall|i: int| 0 <= i < ep@.len() ==> store.contents().contains_key((#[trigger] ep@[i]).0),
                m <= usize::MAX / 2,
                mt == self.spec_metric(),
                heur == self.spec_heuristic(),
                ext_d == self.spec_extend(),
                keep_d == self.spec_keep_pruned(),
                self.spec_entry() == Some(entry),
                top == start.len() - 1,
                query@ == contents[item.0],
                low_top == (if top < level { top } else { level }),
                descend(*kernel, mt, contents, start, query@, entry, top as int, level as int) == Ok::<EntityId, VestoError>(p0),
                link_down(*kernel, mt, contents, heur, ext_d, keep_d, start, query@, item, seq![p0], low_top + 1, m as nat, m_max as nat,
                    ef_construction as nat, extend_candidates, keep_pruned_connections)
                    == link_down(*kernel, mt, contents, heur, ext_d, keep_d, self.spec_layers(), query@, item, ep@, lc_next as int,
                        m as nat, m_max as nat, ef_construction as nat, extend_candidates, keep_pruned_connections),
            decreases lc_next,
        {
            let lc = lc_next - 1;
            let mmax = if lc == 0 { m * 2 } else { m_max };
            let ghost before = self.spec_layers();
            let w = match self.link_at_layer(store, kernel, item, query.as_slice(), &ep, lc, m, mmax, ef_construction,
                extend_candidates, keep_pruned_connections) {
                Ok(w) => w,
                Err(e) => {
                    proof {
                        reveal(insert_spec);
                        assert(link_down(*kernel, mt, contents, heur, ext_d, keep_d, before, query@, item, ep@, lc_next as int,
                            m as nat, m_max as nat, ef_construction as nat, extend_candidates, keep_pruned_connections)
                            == Err::<LayersView, VestoError>(e));
                    }
                    return Err(e);
                },
            };
            proof {
                assert forall|l: int| lc <= l <= low_top implies #[trigger] self.spec_layers()[l].contains_key(item.0) by {
                    if l > lc {
                        assert(before[l].contains_key(item.0));
                    }
                }
            }
            ep = w;
            lc_next = lc;
        }
        let ghost linked = self.spec_layers();
        proof {
            assert(link_down(*kernel, mt, contents, heur, ext_d, keep_d, start, query@, item, seq![p0], low_top + 1, m as nat, m_max as nat,
                ef_construction as nat, extend_candidates, keep_pruned_connections) == Ok::<LayersView, VestoError>(linked));
            if level <= top {
                assert(insert_spec(*kernel, mt, contents, heur, ext_d, keep_d, start, Some(entry), item, m as nat, m_max as nat, ef_construction as nat, level as int, extend_candidates, keep_pruned_connections) == Ok::<(LayersView, Option<EntityId>), VestoError>((linked, Some(entry))));
            }
        }
        if level > top {
            let prev = self.entry_point;
            let ghost mid = self.spec_layers();
            while self.layers.len() <= level
                invariant
                    mid.len() == start.len(),
                    start.len() == top + 1,
                    top < level,
                    level < usize::MAX,
                    self.spec_layers().len() <= level + 1,
                    self.spec_layers().len() >= mid.len(),
                    forall|l: int| 0 <= l < mid.len() ==> #[trigger] self.spec_layers()[l] == mid[l],
                    forall|l: int| mid.len() <= l < self.spec_layers().len() ==> #[trigger] self.spec_layers()[l] == Map::<u64, Seq<EntityId>>::empty(),
                    self.spec_entry() == prev,
                    self.same_settings(old(self)),
                decreases level + 1 - self.spec_layers().len(),
            {
                let ghost b = self.spec_layers();
                self.add_layer();
                proof {
                    assert forall|l: int| 0 <= l < mid.len() implies #[trigger] self.spec_layers()[l] == mid[l] by {
                        assert(self.spec_layers()[l] == b[l]);
                    }
                    assert forall|l: int| mid.len() <= l < self.spec_layers().len() implies #[trigger] self.spec_layers()[l] == Map::<u64, Seq<EntityId>>::empty() by {
                        if l < b.len() {
                            assert(self.spec_layers()[l] == b[l]);
                        }
                    }
                }
            }
            match prev {
                Some(p) => {
                    let mut lc = top + 1;
                    while lc <= level
                        invariant
                            top + 1 <= lc <= level + 1,
                            level < usize::MAX,
                            self.spec_layers().len() == level + 1,
                            mid.len() == top + 1,
                            forall|l: int| 0 <= l < mid.len() ==> #[trigger] self.spec_layers()[l] == mid[l],
                            forall|l: int| lc <= l < self.spec_layers().len() ==> #[trigger] self.spec_layers()[l] == Map::<u64, Seq<EntityId>>::empty(),
                            forall|l: int| top + 1 <= l < lc ==> #[trigger] self.spec_layers()[l] == Map::<u64, Seq<EntityId>>::empty().insert(item.0, seq![p]),
                            self.spec_entry() == prev,
                            self.same_settings(old(self)),
                        decreases level + 1 - lc,
                    {
                        let ghost b = self.spec_layers();
                        let link = vec![p];
                        self.set_neighbours(lc, item, link);
                        proof {
                            assert(link@ =~= seq![p]);
                            assert forall|l: int| 0 <= l < mid.len() implies #[trigger] self.spec_layers()[l] == mid[l] by {
                                assert(self.spec_layers()[l] == b[l]);
                            }
                            assert forall|l: int| top + 1 <= l < lc + 1 implies #[trigger] self.spec_layers()[l] == Map::<u64, Seq<EntityId>>::empty().insert(item.0, seq![p]) by {
                                if l < lc {
                                    assert(self.spec_layers()[l] == b[l]);
                                } else {
                                    assert(b[l] == Map::<u64, Seq<EntityId>>::empty());
                                    assert(self.spec_layers()[l] =~= Map::<u64, Seq<EntityId>>::empty().insert(item.0, seq![p]));
                                }
                            }
                            assert forall|l: int| lc + 1 <= l < self.spec_layers().len() implies #[trigger] self.spec_layers()[l] == Map::<u64, Seq<EntityId>>::empty() by {
                                assert(self.spec_layers()[l] == b[l]);
                            }
                        }
                        lc = lc + 1;
                    }
                    self.entry_point = Some(item);
                    proof {
                        let ls = self.spec_layers();
                        assert(contents.contains_key(p.0)) by {
                            assert(mid[0].contains_key(p.0));
                        }
                        assert forall|l: int| 0 <= l < ls.len() implies #[trigger] ls[l].contains_key(item.0) by {
                            if l < mid.len() {
                                assert(ls[l] == mid[l]);
                            }
                        }
                        assert forall|l: int, k: u64| 0 <= l < ls.len() && #[trigger] ls[l].contains_key(k) implies contents.contains_key(k) by {
                            if l < mid.len() {
                                assert(ls[l] == mid[l]);
                            }
                        }
                        assert forall|l: int, k: u64, i: int| 0 <= l < ls.len() && ls[l].contains_key(k) && 0 <= i < ls[l][k].len()
                            implies contents.contains_key((#[trigger] ls[l][k][i]).0) by {
                            if l < mid.len() {
                                assert(ls[l] == mid[l]);
                            } else {
                                assert(ls[l][k] == seq![p]);
                            }
                        }
                        assert forall|l: int, k: u64| 0 <= l < start.len() && #[trigger] start[l].contains_key(k) implies ls[l].contains_key(k) by {
                            assert(ls[l] == mid[l]);
                        }
                        assert(mid == linked);
                        assert(p == entry);
                        assert(ls =~= raise(linked, level as int, item, entry)) by {
                            let rl = raise(linked, level as int, item, entry);
                            assert(rl.len() == ls.len());
                            assert forall|l: int| 0 <= l < ls.len() implies #[trigger] ls[l] == rl[l] by {
                                if l < mid.len() {
                                    assert(ls[l] == mid[l]);
                                } else {
                                    assert(ls[l] == Map::<u64, Seq<EntityId>>::empty().insert(item.0, seq![p]));
                                }
                            }
                        }
                        assert(insert_spec(*kernel, mt, contents, heur, ext_d, keep_d, start, Some(entry), item, m as nat, m_max as nat, ef_construction as nat, level as int, extend_candidates, keep_pruned_connections) == Ok::<(LayersView, Option<EntityId>), VestoError>((ls, Some(item))));
                    }
                },
                None => {},
            }
        }
        Ok(())
    }
}

} // verus!
