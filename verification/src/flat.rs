use vstd::prelude::*;
use vstd::string::StringExecFns;

use crate::error::VestoError;
use crate::kernel::{distance, kernel_ok, kernel_value};
use crate::metrics::{Metric, MetricsName};
use crate::ranking::{Scored, rank_top_k, top_k_by_score};
use crate::store::VestoStore;
use crate::types::EntityId;

verus! {

/// Scores each id that the store holds against the query, in order; ids the
/// store lacks are skipped, and the first failing distance is the result.
pub open spec fn score_ids(
    ids: Seq<EntityId>,
    contents: Map<u64, Seq<u32>>,
    dist: spec_fn(Seq<u32>) -> Result<u32, VestoError>,
) -> Result<Seq<Scored>, VestoError>
    decreases ids.len(),
{
    if ids.len() == 0 {
        Ok(Seq::empty())
    } else {
        match score_ids(ids.drop_last(), contents, dist) {
            Err(e) => Err(e),
            Ok(s) => {
                let id = ids.last();
                if !contents.contains_key(id.0) {
                    Ok(s)
                } else {
                    match dist(contents[id.0]) {
                        Ok(d) => Ok(s.push((d, id))),
                        Err(e) => Err(e),
                    }
                }
            },
        }
    }
}

/// The distance of a stored vector to the query under the metric.
pub open spec fn to_query<K: Fn(MetricsName, &[u32], &[u32]) -> Result<u32, VestoError>>(
    kernel: K,
    m: MetricsName,
    query: Seq<u32>,
) -> spec_fn(Seq<u32>) -> Result<u32, VestoError> {
    |v: Seq<u32>| kernel_value(kernel, m, v, query)
}

/// Scores the ids that the store holds against the query, in order.
pub fn score_entities<K: Fn(MetricsName, &[u32], &[u32]) -> Result<u32, VestoError>>(
    ids: &[EntityId],
    store: &VestoStore,
    kernel: &K,
    metric: MetricsName,
    query: &[u32],
) -> (r: Result<Vec<Scored>, VestoError>)
    requires
        store.wf(),
        store.rows_exist_for(ids@),
        kernel_ok(*kernel),
    ensures
        match r {
            Ok(v) => score_ids(ids@, store.contents(), to_query(*kernel, metric, query@)) == Ok::<Seq<Scored>, VestoError>(v@),
            Err(e) => score_ids(ids@, store.contents(), to_query(*kernel, metric, query@)) == Err::<Seq<Scored>, VestoError>(e),
        },
{
    let ghost f = to_query(*kernel, metric, query@);
    let mut out: Vec<Scored> = Vec::new();
    let mut i: usize = 0;
    while i < ids.len()
        invariant
            store.wf(),
            store.rows_exist_for(ids@),
            kernel_ok(*kernel),
            f == to_query(*kernel, metric, query@),
            i <= ids@.len(),
            score_ids(ids@.take(i as int), store.contents(), f) == Ok::<Seq<Scored>, VestoError>(out@),
        decreases ids.len() - i,
    {
        let id = ids[i];
        proof {
            assert(ids@.take(i + 1).drop_last() =~= ids@.take(i as int));
            assert(ids@.take(i + 1).last() == id);
        }
        match store.get(&id) {
            None => {},
            Some(v) => {
                match distance(kernel, metric, v.as_slice(), query) {
                    Ok(d) => {
                        out.push((d, id));
                    },
                    Err(e) => {
                        proof {
                            lemma_score_ids_err_prefix(ids@, (i + 1) as int, store.contents(), f, e);
                        }
                        return Err(e);
                    },
                }
            },
        }
        i = i + 1;
    }
    proof {
        assert(ids@.take(i as int) =~= ids@);
    }
    Ok(out)
}

/// An error on a prefix is the error of the whole list.
proof fn lemma_score_ids_err_prefix(
    ids: Seq<EntityId>,
    n: int,
    contents: Map<u64, Seq<u32>>,
    f: spec_fn(Seq<u32>) -> Result<u32, VestoError>,
    e: VestoError,
)
    requires
        0 <= n <= ids.len(),
        score_ids(ids.take(n), contents, f) == Err::<Seq<Scored>, VestoError>(e),
    ensures
        score_ids(ids, contents, f) == Err::<Seq<Scored>, VestoError>(e),
    decreases ids.len() - n,
{
    if n < ids.len() {
        assert(ids.take(n + 1).drop_last() =~= ids.take(n));
        lemma_score_ids_err_prefix(ids, n + 1, contents, f, e);
    } else {
        assert(ids.take(n) =~= ids);
    }
}

/// An exhaustive index: search scores every entity it holds.
pub struct VestoFlatIndex {
    name: String,
    data: Vec<EntityId>,
    metric: Metric,
}

impl VestoFlatIndex {
    /// The index's name.
    pub closed spec fn spec_name(&self) -> Seq<char> {
        self.name@
    }

    /// The entities the index holds, in insertion order.
    pub closed spec fn spec_data(&self) -> Seq<EntityId> {
        self.data@
    }

    /// The metric the index ranks by.
    pub closed spec fn spec_metric(&self) -> MetricsName {
        self.metric.spec_name()
    }

    /// An empty index ranking by the given metric.
    pub fn new(name: &str, metric_name: MetricsName) -> (r: Self)
        ensures
            r.spec_name() == name@,
            r.spec_data().len() == 0,
            r.spec_metric() == metric_name,
    {
        Self { data: Vec::new(), metric: Metric::new(metric_name), name: String::from_str(name) }
    }

    /// The number of entities held.
    pub fn len(&self) -> (n: usize)
        ensures
            n == self.spec_data().len(),
    {
        self.data.len()
    }

    /// Whether the index holds no entity.
    pub fn is_empty(&self) -> (b: bool)
        ensures
            b == (self.spec_data().len() == 0),
    {
        self.data.is_empty()
    }

    /// The index's name.
    pub fn name(&self) -> (r: String)
        ensures
            r@ == self.spec_name(),
    {
        self.name.clone()
    }

    /// The metric the index ranks by.
    pub fn metric_name(&self) -> (m: MetricsName)
        ensures
            m == self.spec_metric(),
    {
        self.metric.name()
    }

    /// Adds entities to the index, after those it holds.
    pub fn insert(&mut self, data: Vec<EntityId>) -> (r: Result<(), VestoError>)
        ensures
            r is Ok,
            final(self).spec_data() == old(self).spec_data() + data@,
            final(self).spec_name() == old(self).spec_name(),
            final(self).spec_metric() == old(self).spec_metric(),
    {
        let mut i: usize = 0;
        let ghost before = self.data@;
        while i < data.len()
            invariant
                i <= data@.len(),
                self.data@ == before + data@.take(i as int),
                self.name@ == old(self).name@,
                self.metric == old(self).metric,
            decreases data.len() - i,
        {
            self.data.push(data[i]);
            i = i + 1;
            proof {
                assert(self.data@ =~= before + data@.take(i as int));
            }
        }
        proof {
            assert(data@.take(i as int) =~= data@);
        }
        Ok(())
    }

    /// The `top_k` entities nearest to the query, nearest first (ties in
    /// insertion order), each with its distance. Entities the store lacks are
    /// skipped; the first failing distance is the result.
    pub fn search<K: Fn(MetricsName, &[u32], &[u32]) -> Result<u32, VestoError>>(
        &self,
        store: &VestoStore,
        kernel: &K,
        query: &[u32],
        top_k: usize,
    ) -> (r: Result<Vec<Scored>, VestoError>)
        requires
            store.wf(),
            store.rows_exist_for(self.spec_data()),
            kernel_ok(*kernel),
        ensures
            match score_ids(self.spec_data(), store.contents(), to_query(*kernel, self.spec_metric(), query@)) {
                Ok(s) => r matches Ok(v) && v@ == top_k_by_score(s, top_k as nat),
                Err(e) => r == Err::<Vec<Scored>, VestoError>(e),
            },
    {
        let scores = score_entities(self.data.as_slice(), store, kernel, self.metric.name(), query)?;
        Ok(rank_top_k(&scores, top_k))
    }
}

/// Each scored entry is a listed, stored id with its distance.
pub proof fn lemma_score_ids_props(
    ids: Seq<EntityId>,
    contents: Map<u64, Seq<u32>>,
    dist: spec_fn(Seq<u32>) -> Result<u32, VestoError>,
)
    ensures
        score_ids(ids, contents, dist) matches Ok(s) ==> forall|i: int| 0 <= i < s.len() ==> {
            &&& ids.contains((#[trigger] s[i]).1)
            &&& contents.contains_key(s[i].1.0)
            &&& dist(contents[s[i].1.0]) == Ok::<u32, VestoError>(s[i].0)
        },
    decreases ids.len(),
{
    if ids.len() > 0 {
        let t = ids.drop_last();
        lemma_score_ids_props(t, contents, dist);
        if let Ok(s) = score_ids(ids, contents, dist) {
            assert forall|i: int| 0 <= i < s.len() implies ids.contains((#[trigger] s[i]).1) by {
                if let Ok(st) = score_ids(t, contents, dist) {
                    if i < st.len() {
                        assert(s[i] == st[i]);
                        let j = choose|j: int| 0 <= j < t.len() && t[j] == st[i].1;
                        assert(ids[j] == t[j]);
                    } else {
                        assert(ids[ids.len() - 1] == ids.last());
                    }
                }
            }
        }
    }
}

} // verus!
