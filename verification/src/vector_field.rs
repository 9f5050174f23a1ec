use vstd::prelude::*;
use vstd::string::StringExecFns;

use crate::error::VestoError;
use crate::flat::{VestoFlatIndex, lemma_score_ids_props, score_ids, to_query};
use crate::hnsw::scored_right;
use crate::hnsw_index::{VestoHNSWIndex, levels_ok};
use crate::index::{VestoIndex, failed, ids_from, took};
use crate::kernel::kernel_ok;
use crate::metrics::{MetricsName, lowercase, lowercase_text};
use crate::ranking::{Scored, lemma_top_k_props, top_k_by_score};
use crate::store::{VestoStore, fresh_rows, vectors_view};
use crate::types::EntityId;

verus! {

/// A copy of a list of ids.
pub fn copy_ids(s: &Vec<EntityId>) -> (r: Vec<EntityId>)
    ensures
        r@ == s@,
{
    let mut r: Vec<EntityId> = Vec::new();
    let mut i: usize = 0;
    while i < s.len()
        invariant
            i <= s@.len(),
            r@ == s@.take(i as int),
        decreases s.len() - i,
    {
        r.push(s[i]);
        i = i + 1;
        proof {
            assert(r@ =~= s@.take(i as int));
        }
    }
    proof {
        assert(s@.take(i as int) =~= s@);
    }
    r
}

/// Results of a search: every entry is a stored entity with its distance
/// to the query, at most `top_k` of them.
pub open spec fn search_result_ok<K: Fn(MetricsName, &[u32], &[u32]) -> Result<u32, VestoError>>(
    v: Seq<Scored>,
    contents: Map<u64, Seq<u32>>,
    kernel: K,
    m: MetricsName,
    query: Seq<u32>,
    top_k: usize,
) -> bool {
    &&& v.len() <= top_k
    &&& forall|i: int| 0 <= i < v.len() ==> scored_right(contents, kernel, m, query, #[trigger] v[i])
}

/// The score and id of each search result.
pub open spec fn pairs_of(v: Seq<(u32, EntityId, Vec<u32>)>) -> Seq<Scored> {
    v.map_values(|t: (u32, EntityId, Vec<u32>)| (t.0, t.1))
}

/// A field's search result as the index's result: scores and ids.
pub open spec fn field_result(r: Result<Vec<(u32, EntityId, Vec<u32>)>, VestoError>) -> Result<Seq<Scored>, VestoError> {
    match r {
        Ok(v) => Ok(pairs_of(v@)),
        Err(e) => Err(e),
    }
}

impl VestoIndex {
    /// The metric the index ranks by.
    pub open spec fn spec_metric(&self) -> MetricsName {
        match self {
            VestoIndex::Flat(f) => f.spec_metric(),
            VestoIndex::Hnsw(h) => h.graph().spec_metric(),
        }
    }
}

/// The indexes' names.
pub open spec fn index_names(ix: Seq<VestoIndex>) -> Seq<Seq<char>> {
    ix.map_values(|i: VestoIndex| i.spec_name())
}

/// Creating an index named `name` of type `index_type` turned the indexes
/// `before` into `after` with result `r`: a taken name gives
/// `DuplicateIndex`; "flat" or "hnsw" (in any case) appends a new empty
/// index of that kind with the metric; any other type gives
/// `UnknownIndexType`. A refused creation changes nothing.
pub open spec fn index_created(
    before: Seq<VestoIndex>,
    after: Seq<VestoIndex>,
    name: Seq<char>,
    index_type: Seq<char>,
    metric: MetricsName,
    r: Result<(), VestoError>,
) -> bool {
    if exists|i: int| 0 <= i < before.len() && #[trigger] before[i].spec_name() == name {
        &&& r == Err::<(), VestoError>(VestoError::DuplicateIndex)
        &&& after == before
    } else if lowercase(index_type) == "flat"@ {
        &&& r is Ok
        &&& after.len() == before.len() + 1
        &&& after.drop_last() == before
        &&& after.last() matches VestoIndex::Flat(f)
        &&& f.spec_name() == name && f.spec_metric() == metric && f.spec_data().len() == 0
    } else if lowercase(index_type) == "hnsw"@ {
        &&& r is Ok
        &&& after.len() == before.len() + 1
        &&& after.drop_last() == before
        &&& after.last() matches VestoIndex::Hnsw(h)
        &&& h.spec_name() == name && h.graph().spec_metric() == metric && h.graph().spec_layers().len() == 0
    } else {
        &&& r == Err::<(), VestoError>(VestoError::UnknownIndexType)
        &&& after == before
    }
}

/// Adding `index` turned the indexes `before` into `after` with result `r`:
/// a taken name gives `DuplicateIndex` and changes nothing; otherwise the
/// index is appended and `BadHeader` is reported.
pub open spec fn index_added(before: Seq<VestoIndex>, after: Seq<VestoIndex>, index: VestoIndex, r: Result<(), VestoError>) -> bool {
    if exists|i: int| 0 <= i < before.len() && #[trigger] before[i].spec_name() == index.spec_name() {
        &&& r == Err::<(), VestoError>(VestoError::DuplicateIndex)
        &&& after == before
    } else {
        &&& r == Err::<(), VestoError>(VestoError::BadHeader)
        &&& after == before.push(index)
    }
}

/// One vector field of a collection: its store and the indexes over it.
pub struct VectorField {
    name: String,
    store: VestoStore,
    indexes: Vec<VestoIndex>,
}

impl VectorField {
    pub closed spec fn spec_name(&self) -> Seq<char> {
        self.name@
    }

    /// The field's store.
    pub closed spec fn spec_store(&self) -> VestoStore {
        self.store
    }

    /// The field's indexes.
    pub closed spec fn spec_indexes(&self) -> Seq<VestoIndex> {
        self.indexes@
    }

    /// The store is consistent, every index can serve it, and no two
    /// indexes share a name.
    pub open spec fn wf(&self) -> bool {
        &&& self.spec_store().wf()
        &&& self.spec_store().in_rows()
        &&& forall|i: int| 0 <= i < self.spec_indexes().len() ==> #[trigger] self.spec_indexes()[i].serves(&self.spec_store())
        &&& forall|i: int, j: int| 0 <= i < j < self.spec_indexes().len() ==>
            #[trigger] self.spec_indexes()[i].spec_name() != #[trigger] self.spec_indexes()[j].spec_name()
    }

    /// An empty field for vectors of length `dim`, without indexes.
    pub fn new(name: &str, dim: usize) -> (r: Self)
        ensures
            r.wf(),
            r.spec_name() == name@,
            r.spec_store()@.dim == dim,
            r.spec_store()@.next_id == 0,
            r.spec_store().contents() == Map::<u64, Seq<u32>>::empty(),
            r.spec_indexes().len() == 0,
    {
        Self { store: VestoStore::new(dim), name: String::from_str(name), indexes: Vec::new() }
    }

    /// The field's name.
    pub fn name(&self) -> (r: String)
        ensures
            r@ == self.spec_name(),
    {
        self.name.clone()
    }

    /// The field's store.
    pub fn store(&self) -> (r: &VestoStore)
        ensures
            *r == self.spec_store(),
    {
        &self.store
    }

    /// The position of the index with this name.
    fn find_index(&self, name: &String) -> (r: Option<usize>)
        ensures
            match r {
                Some(i) => i < self.spec_indexes().len() && self.spec_indexes()[i as int].spec_name() == name@,
                None => forall|i: int| 0 <= i < self.spec_indexes().len() ==> #[trigger] self.spec_indexes()[i].spec_name() != name@,
            },
    {
        let mut i: usize = 0;
        while i < self.indexes.len()
            invariant
                i <= self.indexes@.len(),
                forall|j: int| 0 <= j < i ==> #[trigger] self.indexes@[j].spec_name() != name@,
            decreases self.indexes.len() - i,
        {
            let n = self.indexes[i].name();
            if n == *name {
                return Some(i);
            }
            i = i + 1;
        }
        None
    }

    /// Stores the vectors and adds their ids to every index (HNSW indexes
    /// draw a level for each). Returns the new ids.
    pub fn insert<K: Fn(MetricsName, &[u32], &[u32]) -> Result<u32, VestoError>, L: Fn() -> usize>(
        &mut self,
        vectors: Vec<Vec<u32>>,
        kernel: &K,
        draw_level: &L,
    ) -> (r: Result<Vec<EntityId>, VestoError>)
        requires
            old(self).wf(),
            kernel_ok(*kernel),
            levels_ok(*draw_level),
            old(self).spec_store()@.next_id + vectors@.len() <= u64::MAX,
        ensures
            final(self).wf(),
            final(self).spec_name() == old(self).spec_name(),
            index_names(final(self).spec_indexes()) == index_names(old(self).spec_indexes()),
            final(self).spec_store()@.dim == old(self).spec_store()@.dim,
            r matches Ok(ids) ==> {
                &&& ids@.len() == vectors@.len()
                &&& forall|i: int| 0 <= i < ids@.len() ==> (#[trigger] ids@[i]).0 == old(self).spec_store()@.next_id + i
                &&& final(self).spec_store()@.next_id == old(self).spec_store()@.next_id + vectors@.len()
                &&& final(self).spec_store().contents() == fresh_rows(old(self).spec_store().contents(),
                        old(self).spec_store()@.next_id, vectors_view(vectors@))
                &&& final(self).spec_indexes().len() == old(self).spec_indexes().len()
                &&& forall|j: int| 0 <= j < old(self).spec_indexes().len() ==>
                        took(old(self).spec_indexes()[j], #[trigger] final(self).spec_indexes()[j], ids@, *kernel, *draw_level, final(self).spec_store().contents())
            },
            (exists|i: int| 0 <= i < vectors@.len() && (#[trigger] vectors@[i])@.len() != old(self).spec_store()@.dim)
                ==> r is Err && final(self).spec_store()@ == old(self).spec_store()@,
            (forall|i: int| 0 <= i < vectors@.len() ==> (#[trigger] vectors@[i])@.len() == old(self).spec_store()@.dim) ==> {
                &&& final(self).spec_store()@.next_id == old(self).spec_store()@.next_id + vectors@.len()
                &&& final(self).spec_store().contents() == fresh_rows(old(self).spec_store().contents(),
                        old(self).spec_store()@.next_id, vectors_view(vectors@))
                &&& r matches Err(e) ==> exists|j: int| 0 <= j < old(self).spec_indexes().len()
                    && (forall|q: int| 0 <= q < j ==> took(old(self).spec_indexes()[q], #[trigger] final(self).spec_indexes()[q],
                        ids_from(old(self).spec_store()@.next_id, vectors@.len()), *kernel, *draw_level, final(self).spec_store().contents()))
                    && #[trigger] failed(old(self).spec_indexes()[j], final(self).spec_indexes()[j],
                        ids_from(old(self).spec_store()@.next_id, vectors@.len()), *kernel, *draw_level, final(self).spec_store().contents(), e)
            },
    {
        let ghost old_store = self.store;
        let ghost vs = vectors@;
        let inserted = self.store.insert(vectors);
        proof {
            assert forall|k: u64| #[trigger] old_store.contents().contains_key(k) implies self.store.contents().contains_key(k) by {}
            assert(self.indexes@ == old(self).indexes@);
            assert(old_store == old(self).store);
            assert forall|i: int| 0 <= i < self.indexes@.len() implies #[trigger] self.indexes@[i].serves(&self.store) by {
                assert(old(self).spec_indexes()[i].serves(&old(self).spec_store()));
                self.indexes@[i].lemma_serves_larger(&old_store, &self.store);
            }
        }
        let ids = inserted?;
        proof {
            assert(ids@ =~= ids_from(old(self).spec_store()@.next_id, vs.len()));
        }
        let ghost names = index_names(self.indexes@);
        let ghost st = self.store;
        proof {
            assert forall|a: int, b: int| 0 <= a < b < names.len() implies names[a] != names[b] by {
                assert(old(self).spec_indexes()[a].spec_name() != old(self).spec_indexes()[b].spec_name());
            }
        }
        let mut i: usize = 0;
        while i < self.indexes.len()
            invariant
                self.wf(),
                kernel_ok(*kernel),
                levels_ok(*draw_level),
                i <= self.indexes@.len(),
                index_names(self.indexes@) == names,
                names == index_names(old(self).spec_indexes()),
                forall|a: int, b: int| 0 <= a < b < names.len() ==> names[a] != names[b],
                self.name == old(self).name,
                self.store == st,
                forall|j: int| 0 <= j < self.indexes@.len() ==> #[trigger] self.indexes@[j].serves(&self.store),
                forall|j: int| 0 <= j < ids@.len() ==> self.store.contents().contains_key((#[trigger] ids@[j]).0),
                self.indexes@.len() == old(self).spec_indexes().len(),
                self.store@.dim == old(self).spec_store()@.dim,
                vs == vectors@,
                ids@ == ids_from(old(self).spec_store()@.next_id, vs.len()),
                self.store@.next_id == old(self).spec_store()@.next_id + vs.len(),
                self.store.contents() == fresh_rows(old(self).spec_store().contents(), old(self).spec_store()@.next_id, vectors_view(vs)),
                !(exists|k: int| 0 <= k < vs.len() && (#[trigger] vs[k])@.len() != old(self).spec_store()@.dim),
                forall|j: int| 0 <= j < i ==> took(old(self).spec_indexes()[j], #[trigger] self.indexes@[j], ids@, *kernel, *draw_level, self.store.contents()),
                forall|j: int| i <= j < self.indexes@.len() ==> #[trigger] self.indexes@[j] == old(self).spec_indexes()[j],
            decreases self.indexes.len() - i,
        {
            let batch = copy_ids(&ids);
            let ghost before = self.indexes@;
            let res = self.indexes[i].insert(batch, &self.store, kernel, draw_level);
            proof {
                assert(self.indexes@ == before.update(i as int, self.indexes@[i as int]));
                assert(index_names(self.indexes@) =~= names);
                assert forall|j: int| 0 <= j < self.indexes@.len() implies #[trigger] self.indexes@[j].serves(&self.store) by {
                    if j != i {
                        assert(self.indexes@[j] == before[j]);
                    }
                }
                assert forall|a: int, b: int| 0 <= a < b < self.indexes@.len() implies
                    #[trigger] self.indexes@[a].spec_name() != #[trigger] self.indexes@[b].spec_name() by {
                    assert(self.indexes@[a].spec_name() == names[a]);
                    assert(self.indexes@[b].spec_name() == names[b]);
                    assert(before[a].spec_name() == names[a]);
                    assert(before[b].spec_name() == names[b]);
                }
            }
            if let Err(e) = res {
                proof {
                    assert(before[i as int] == old(self).spec_indexes()[i as int]);
                    assert(failed(old(self).spec_indexes()[i as int], self.indexes@[i as int], ids@, *kernel, *draw_level,
                        self.store.contents(), e));
                    assert forall|q: int| 0 <= q < i implies took(old(self).spec_indexes()[q], #[trigger] self.indexes@[q], ids@,
                        *kernel, *draw_level, self.store.contents()) by {
                        assert(self.indexes@[q] == before[q]);
                    }
                }
                return Err(e);
            }
            proof {
                assert forall|j: int| 0 <= j < i + 1 implies took(old(self).spec_indexes()[j], #[trigger] self.indexes@[j], ids@, *kernel, *draw_level, self.store.contents()) by {
                    if j < i {
                        assert(self.indexes@[j] == before[j]);
                    }
                }
            }
            i = i + 1;
        }
        Ok(ids)
    }

    /// Adds an index of the named type ("flat" or "hnsw", in any case) under
    /// a new name; an HNSW index gets the default tuning. A taken name gives
    /// `DuplicateIndex`, another type `UnknownIndexType`.
    pub fn create_index_by_type(&mut self, name: String, index_type: String, metric_name: MetricsName) -> (r: Result<(), VestoError>)
        requires
            old(self).wf(),
        ensures
            final(self).wf(),
            final(self).spec_name() == old(self).spec_name(),
            final(self).spec_store() == old(self).spec_store(),
            index_created(old(self).spec_indexes(), final(self).spec_indexes(), name@, index_type@, metric_name, r),
    {
        let found = self.find_index(&name);
        if found.is_some() {
            return Err(VestoError::DuplicateIndex);
        }
        let lower = lowercase_text(index_type.as_str());
        let flat = String::from_str("flat");
        let hnsw = String::from_str("hnsw");
        proof {
            reveal_strlit("flat");
            reveal_strlit("hnsw");
        }
        let index = if lower == flat {
            VestoIndex::Flat(VestoFlatIndex::new(name.as_str(), metric_name))
        } else if lower == hnsw {
            VestoIndex::Hnsw(VestoHNSWIndex::new(name.as_str(), metric_name, None))
        } else {
            return Err(VestoError::UnknownIndexType);
        };
        let ghost before = self.indexes@;
        proof {
            assert(found is None);
            assert(before == old(self).spec_indexes());
            assert(index.spec_name() == name@);
            assert(!exists|i: int| 0 <= i < before.len() && #[trigger] before[i].spec_name() == name@);
        }
        self.indexes.push(index);
        proof {
            assert(self.indexes@.drop_last() =~= before);
            assert forall|i: int, j: int| 0 <= i < j < self.indexes@.len() implies
                #[trigger] self.indexes@[i].spec_name() != #[trigger] self.indexes@[j].spec_name() by {
                if j == before.len() {
                    assert(self.indexes@[i] == before[i]);
                    assert(before[i].spec_name() != name@);
                }
            }
        }
        Ok(())
    }

    /// Adds an index under its own name; a taken name gives `DuplicateIndex`
    /// and leaves the indexes unchanged. Otherwise the index is added and the
    /// call reports `BadHeader`: registering under a new name finds no
    /// previous index, and that absence is reported as this error.
    pub fn add_index(&mut self, index: VestoIndex) -> (r: Result<(), VestoError>)
        requires
            old(self).wf(),
            index.serves(&old(self).spec_store()),
        ensures
            final(self).wf(),
            final(self).spec_name() == old(self).spec_name(),
            final(self).spec_store() == old(self).spec_store(),
            index_added(old(self).spec_indexes(), final(self).spec_indexes(), index, r),
    {
        let name = index.name();
        let found = self.find_index(&name);
        if found.is_some() {
            return Err(VestoError::DuplicateIndex);
        }
        let ghost before = self.indexes@;
        proof {
            assert(found is None);
            assert(before == old(self).spec_indexes());
            assert(!exists|i: int| 0 <= i < before.len() && #[trigger] before[i].spec_name() == index.spec_name());
        }
        self.indexes.push(index);
        proof {
            assert forall|i: int, j: int| 0 <= i < j < self.indexes@.len() implies
                #[trigger] self.indexes@[i].spec_name() != #[trigger] self.indexes@[j].spec_name() by {
                if j == before.len() {
                    assert(self.indexes@[i] == before[i]);
                    assert(before[i].spec_name() != name@);
                }
            }
        }
        Err(VestoError::BadHeader)
    }

    /// Searches the named index and returns the results with their vectors.
    /// An unknown index name gives `KeyNotFound`.
    pub fn search<K: Fn(MetricsName, &[u32], &[u32]) -> Result<u32, VestoError>>(
        &self,
        index_name: &str,
        query: &[u32],
        top_k: usize,
        kernel: &K,
    ) -> (r: Result<Vec<(u32, EntityId, Vec<u32>)>, VestoError>)
        requires
            self.wf(),
            kernel_ok(*kernel),
        ensures
            (forall|i: int| 0 <= i < self.spec_indexes().len() ==> #[trigger] self.spec_indexes()[i].spec_name() != index_name@)
                ==> r == Err::<Vec<(u32, EntityId, Vec<u32>)>, VestoError>(VestoError::KeyNotFound),
            forall|i: int| 0 <= i < self.spec_indexes().len() && #[trigger] self.spec_indexes()[i].spec_name() == index_name@
                ==> self.spec_indexes()[i].answers(&self.spec_store(), *kernel, query@, top_k, field_result(r)),
            r matches Ok(v) ==> exists|i: int| 0 <= i < self.spec_indexes().len()
                && #[trigger] self.spec_indexes()[i].spec_name() == index_name@
                && v@.len() <= top_k
                && forall|j: int| 0 <= j < v@.len() ==> {
                    &&& scored_right(self.spec_store().contents(), *kernel, self.spec_indexes()[i].spec_metric(), query@, ((#[trigger] v@[j]).0, v@[j].1))
                    &&& v@[j].2@ == self.spec_store().contents()[v@[j].1.0]
                },
    {
        let key = String::from_str(index_name);
        let idx = match self.find_index(&key) {
            Some(i) => i,
            None => return Err(VestoError::KeyNotFound),
        };
        let index = &self.indexes[idx];
        let positions = match index.search(&self.store, query, top_k, kernel) {
            Ok(p) => p,
            Err(e) => {
                return Err(e);
            },
        };
        proof {
            index.lemma_search_result(&self.store, *kernel, query@, top_k, positions@);
        }
        let mut ans: Vec<(u32, EntityId, Vec<u32>)> = Vec::new();
        let mut j: usize = 0;
        while j < positions.len()
            invariant
                self.wf(),
                j <= positions@.len(),
                ans@.len() == j,
                search_result_ok(positions@, self.store.contents(), *kernel, index.spec_metric(), query@, top_k),
                forall|q: int| 0 <= q < j ==> {
                    &&& (#[trigger] ans@[q]).0 == positions@[q].0
                    &&& ans@[q].1 == positions@[q].1
                    &&& ans@[q].2@ == self.store.contents()[positions@[q].1.0]
                },
            decreases positions.len() - j,
        {
            let p = positions[j];
            let ghost pj = positions@[j as int];
            assert(scored_right(self.store.contents(), *kernel, index.spec_metric(), query@, pj));
            match self.store.get(&p.1) {
                Some(v) => {
                    ans.push((p.0, p.1, v));
                },
                None => {},
            }
            j = j + 1;
        }
        proof {
            assert(pairs_of(ans@) =~= positions@);
            assert forall|q: int| 0 <= q < ans@.len() implies {
                &&& scored_right(self.store.contents(), *kernel, index.spec_metric(), query@, ((#[trigger] ans@[q]).0, ans@[q].1))
                &&& ans@[q].2@ == self.store.contents()[ans@[q].1.0]
            } by {
                assert(scored_right(self.store.contents(), *kernel, index.spec_metric(), query@, positions@[q]));
            }
        }
        Ok(ans)
    }
}

impl VestoIndex {
    /// What a successful search gives: at most `top_k` stored entities, each
    /// with its distance to the query.
    pub proof fn lemma_search_result<K: Fn(MetricsName, &[u32], &[u32]) -> Result<u32, VestoError>>(
        &self,
        store: &VestoStore,
        kernel: K,
        query: Seq<u32>,
        top_k: usize,
        v: Seq<Scored>,
    )
        requires
            self.answers(store, kernel, query, top_k, Ok(v)),
        ensures
            search_result_ok(v, store.contents(), kernel, self.spec_metric(), query, top_k),
    {
        if let VestoIndex::Flat(f) = self {
            let g = to_query(kernel, f.spec_metric(), query);
            let s = score_ids(f.spec_data(), store.contents(), g)->Ok_0;
            lemma_score_ids_props(f.spec_data(), store.contents(), g);
            lemma_top_k_props(s, top_k as nat);
            assert forall|i: int| 0 <= i < v.len() implies scored_right(store.contents(), kernel, self.spec_metric(), query, #[trigger] v[i]) by {
                assert(s.contains(v[i]));
                let j = choose|j: int| 0 <= j < s.len() && s[j] == v[i];
            }
        }
    }
}

} // verus!
