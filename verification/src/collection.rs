use std::collections::HashMap;
use vstd::prelude::*;
use vstd::string::StringExecFns;

use crate::error::VestoError;
use crate::hnsw::scored_right;
use crate::hnsw_index::levels_ok;
use crate::index::{VestoIndex, failed, ids_from, took};
use crate::kernel::kernel_ok;
use crate::metrics::{MetricsName, lowercase, parse_metric_from_str, spec_metric_from_lowercase};
use crate::store::{fresh_rows, vectors_view};
use crate::types::{EntityId, Metadata, lemma_metadata_wf_view, metadata_view, metadata_wf};
use crate::ranking::Scored;
use crate::vector_field::{VectorField, index_added, index_created, index_names, pairs_of};

verus! {

broadcast use vstd::std_specs::hash::group_hash_axioms;

/// The metadata of every id outside `ids` is as it was.
pub open spec fn others_kept(before: Map<u64, Metadata>, after: Map<u64, Metadata>, ids: Seq<EntityId>) -> bool {
    forall|x: u64| !(exists|q: int| 0 <= q < ids.len() && (#[trigger] ids[q]).0 == x) ==> {
        &&& #[trigger] after.contains_key(x) == before.contains_key(x)
        &&& before.contains_key(x) ==> after[x] == before[x]
    }
}

/// Each id has the metadata at the same position recorded under it.
pub open spec fn recorded(md: Map<u64, Metadata>, ids: Seq<EntityId>, meta: Seq<Metadata>) -> bool {
    forall|i: int| 0 <= i < ids.len() ==> #[trigger] md.contains_key(ids[i].0) && metadata_view(md[ids[i].0]) == metadata_view(meta[i])
}

/// A named collection: vector fields, and metadata by entity id.
pub struct Collection {
    name: String,
    vector_fields: Vec<VectorField>,
    metadata: HashMap<u64, Metadata>,
}

impl Collection {
    /// The collection's name.
    pub closed spec fn spec_name(&self) -> Seq<char> {
        self.name@
    }

    /// The collection's name.
    pub fn name(&self) -> (r: String)
        ensures
            r@ == self.spec_name(),
    {
        self.name.clone()
    }

    /// The vector fields, in the order they were added.
    pub closed spec fn spec_fields(&self) -> Seq<VectorField> {
        self.vector_fields@
    }

    /// The metadata by entity id.
    pub closed spec fn spec_metadata(&self) -> Map<u64, Metadata> {
        self.metadata@
    }

    /// Every field is consistent, no two fields share a name, and no
    /// recorded metadata names a field twice.
    pub open spec fn wf(&self) -> bool {
        &&& forall|k: u64| #[trigger] self.spec_metadata().contains_key(k) ==> metadata_wf(self.spec_metadata()[k])
        &&& forall|i: int| 0 <= i < self.spec_fields().len() ==> (#[trigger] self.spec_fields()[i]).wf()
        &&& forall|i: int, j: int| 0 <= i < j < self.spec_fields().len() ==>
            #[trigger] self.spec_fields()[i].spec_name() != #[trigger] self.spec_fields()[j].spec_name()
    }

    /// Some field has this name.
    pub open spec fn has_field(&self, name: Seq<char>) -> bool {
        exists|i: int| 0 <= i < self.spec_fields().len() && #[trigger] self.spec_fields()[i].spec_name() == name
    }

    /// The field with this name (when there is one).
    pub open spec fn field(&self, name: Seq<char>) -> VectorField {
        let i = choose|i: int| 0 <= i < self.spec_fields().len() && #[trigger] self.spec_fields()[i].spec_name() == name;
        self.spec_fields()[i]
    }

    /// An empty collection.
    pub fn new(name: &str) -> (r: Self)
        ensures
            r.wf(),
            r.spec_name() == name@,
            r.spec_fields().len() == 0,
            r.spec_metadata() == Map::<u64, Metadata>::empty(),
    {
        Self { metadata: HashMap::new(), name: String::from_str(name), vector_fields: Vec::new() }
    }

    /// The position of the field with this name.
    fn find_field(&self, name: &str) -> (r: Option<usize>)
        ensures
            match r {
                Some(i) => i < self.spec_fields().len() && self.spec_fields()[i as int].spec_name() == name@,
                None => !self.has_field(name@),
            },
    {
        let key = String::from_str(name);
        let mut i: usize = 0;
        while i < self.vector_fields.len()
            invariant
                i <= self.vector_fields@.len(),
                key@ == name@,
                forall|j: int| 0 <= j < i ==> #[trigger] self.vector_fields@[j].spec_name() != name@,
            decreases self.vector_fields.len() - i,
        {
            let n = self.vector_fields[i].name();
            if n == key {
                return Some(i);
            }
            i = i + 1;
        }
        None
    }

    /// The vector field with this name, if any.
    pub fn vector_field(&self, name: &str) -> (r: Option<&VectorField>)
        requires
            self.wf(),
        ensures
            match r {
                Some(f) => self.has_field(name@) && *f == self.field(name@),
                None => !self.has_field(name@),
            },
    {
        match self.find_field(name) {
            Some(i) => {
                proof {
                    self.lemma_field_at(name@, i as int);
                }
                Some(&self.vector_fields[i])
            },
            None => None,
        }
    }

    /// Adds an empty vector field for vectors of length `dim`; a taken name
    /// gives `DuplicateVectorField`.
    pub fn add_vector_field(&mut self, name: &str, dim: usize) -> (r: Result<(), VestoError>)
        requires
            old(self).wf(),
        ensures
            final(self).wf(),
            final(self).spec_name() == old(self).spec_name(),
            final(self).spec_metadata() == old(self).spec_metadata(),
            old(self).has_field(name@) ==> r == Err::<(), VestoError>(VestoError::DuplicateVectorField)
                && final(self).spec_fields() == old(self).spec_fields(),
            !old(self).has_field(name@) ==> {
                &&& r is Ok
                &&& final(self).spec_fields().drop_last() == old(self).spec_fields()
                &&& final(self).spec_fields().len() == old(self).spec_fields().len() + 1
                &&& final(self).spec_fields().last().spec_name() == name@
                &&& final(self).spec_fields().last().spec_store()@.dim == dim
                &&& final(self).spec_fields().last().spec_store().contents() == Map::<u64, Seq<u32>>::empty()
                &&& final(self).spec_fields().last().spec_indexes().len() == 0
            },
    {
        if self.find_field(name).is_some() {
            return Err(VestoError::DuplicateVectorField);
        }
        let field = VectorField::new(name, dim);
        let ghost before = self.vector_fields@;
        let ghost fv = field;
        self.vector_fields.push(field);
        proof {
            assert(before == old(self).spec_fields());
            assert(self.vector_fields@ == before.push(fv));
            assert(self.vector_fields@[before.len() as int] == fv);
            assert(fv.wf());
            assert(!old(self).has_field(name@));
            assert(self.vector_fields@.drop_last() =~= before);
            assert forall|i: int, j: int| 0 <= i < j < self.vector_fields@.len() implies
                #[trigger] self.vector_fields@[i].spec_name() != #[trigger] self.vector_fields@[j].spec_name() by {
                if j == before.len() {
                    assert(self.vector_fields@[i] == before[i]);
                    assert(old(self).spec_fields()[i].spec_name() != name@);
                } else {
                    assert(self.vector_fields@[i] == before[i]);
                    assert(self.vector_fields@[j] == before[j]);
                }
            }
            assert forall|i: int| 0 <= i < self.vector_fields@.len() implies (#[trigger] self.vector_fields@[i]).wf() by {
                if i < before.len() {
                    assert(self.vector_fields@[i] == before[i]);
                }
            }
            assert(self.metadata@ == old(self).metadata@);
            assert forall|x: u64| #[trigger] self.spec_metadata().contains_key(x) implies metadata_wf(self.spec_metadata()[x]) by {
                assert(old(self).spec_metadata().contains_key(x));
            }
        }
        Ok(())
    }

    /// The field named `vector_field`, adding it with vectors of length
    /// `dim` when there is none.
    fn field_position(&mut self, vector_field: &str, dim: usize) -> (i: usize)
        requires
            old(self).wf(),
        ensures
            final(self).wf(),
            final(self).spec_name() == old(self).spec_name(),
            final(self).spec_metadata() == old(self).spec_metadata(),
            i < final(self).spec_fields().len(),
            final(self).spec_fields()[i as int].spec_name() == vector_field@,
            old(self).has_field(vector_field@) ==> final(self).spec_fields() == old(self).spec_fields(),
            !old(self).has_field(vector_field@) ==> {
                &&& final(self).spec_fields().drop_last() == old(self).spec_fields()
                &&& i == old(self).spec_fields().len()
                &&& final(self).spec_fields()[i as int].spec_store()@.dim == dim
                &&& final(self).spec_fields()[i as int].spec_store().contents() == Map::<u64, Seq<u32>>::empty()
                &&& final(self).spec_fields()[i as int].spec_indexes().len() == 0
            },
    {
        match self.find_field(vector_field) {
            Some(i) => i,
            None => {
                let _ = self.add_vector_field(vector_field, dim);
                self.vector_fields.len() - 1
            },
        }
    }

    /// Creates an index of the named type ("flat" or "hnsw", any case) on
    /// the field, with the metric the name gives; the field is first added
    /// (for vectors of length `dim`) when the collection has none by that
    /// name.
    pub fn create_index_by_type(
        &mut self,
        vector_field: &str,
        name: &str,
        index_type: &str,
        metric_name: &str,
        dim: usize,
    ) -> (r: Result<(), VestoError>)
        requires
            old(self).wf(),
        ensures
            final(self).wf(),
            final(self).spec_name() == old(self).spec_name(),
            final(self).spec_metadata() == old(self).spec_metadata(),
            final(self).has_field(vector_field@),
            forall|i: int| 0 <= i < old(self).spec_fields().len() && #[trigger] old(self).spec_fields()[i].spec_name() != vector_field@
                ==> final(self).spec_fields()[i] == old(self).spec_fields()[i],
            old(self).has_field(vector_field@) ==> {
                &&& final(self).spec_fields().len() == old(self).spec_fields().len()
                &&& final(self).field(vector_field@).spec_store() == old(self).field(vector_field@).spec_store()
                &&& index_created(old(self).field(vector_field@).spec_indexes(), final(self).field(vector_field@).spec_indexes(),
                        name@, index_type@, spec_metric_from_lowercase(lowercase(metric_name@)), r)
            },
            !old(self).has_field(vector_field@) ==> {
                &&& final(self).spec_fields().drop_last() == old(self).spec_fields()
                &&& final(self).field(vector_field@).spec_store()@.dim == dim
                &&& final(self).field(vector_field@).spec_store().contents() == Map::<u64, Seq<u32>>::empty()
                &&& index_created(Seq::empty(), final(self).field(vector_field@).spec_indexes(),
                        name@, index_type@, spec_metric_from_lowercase(lowercase(metric_name@)), r)
            },
    {
        let ghost had = self.has_field(vector_field@);
        let i = self.field_position(vector_field, dim);
        proof {
            if had {
                old(self).lemma_field_at(vector_field@, i as int);
            }
        }
        let metric = parse_metric_from_str(metric_name);
        let ghost before = self.vector_fields@;
        let r = self.vector_fields[i].create_index_by_type(String::from_str(name), String::from_str(index_type), metric);
        proof {
            assert(self.vector_fields@ == before.update(i as int, self.vector_fields@[i as int]));
            self.lemma_fields_update(before, i as int);
            assert(self.spec_fields()[i as int].spec_name() == vector_field@);
            self.lemma_field_at(vector_field@, i as int);
            if !had {
                assert(before[i as int].spec_indexes() =~= Seq::<VestoIndex>::empty());
                assert(self.spec_fields().drop_last() =~= before.drop_last());
                assert(self.spec_fields().drop_last() =~= old(self).spec_fields());
            }
        }
        r
    }

    /// Replacing one field by a consistent field of the same name keeps the
    /// collection consistent.
    proof fn lemma_fields_update(&self, before: Seq<VectorField>, i: int)
        requires
            0 <= i < before.len(),
            self.spec_fields() == before.update(i, self.spec_fields()[i]),
            self.spec_fields()[i].spec_name() == before[i].spec_name(),
            self.spec_fields()[i].wf(),
            forall|j: int| 0 <= j < before.len() ==> (#[trigger] before[j]).wf(),
            forall|a: int, b: int| 0 <= a < b < before.len() ==> #[trigger] before[a].spec_name() != #[trigger] before[b].spec_name(),
            forall|k: u64| #[trigger] self.spec_metadata().contains_key(k) ==> metadata_wf(self.spec_metadata()[k]),
        ensures
            self.wf(),
            forall|j: int| 0 <= j < before.len() && j != i ==> #[trigger] self.spec_fields()[j] == before[j],
    {
        let fs = self.spec_fields();
        assert forall|a: int, b: int| 0 <= a < b < fs.len() implies #[trigger] fs[a].spec_name() != #[trigger] fs[b].spec_name() by {
            assert(fs[a].spec_name() == before[a].spec_name());
            assert(fs[b].spec_name() == before[b].spec_name());
        }
    }

    /// Adds an index to the field, adding the field (for vectors of length
    /// `dim`) when the collection has none by that name. The field's answer
    /// is returned: `DuplicateIndex` for a taken index name, otherwise the
    /// index is added and `BadHeader` reported.
    pub fn add_index(&mut self, vector_field: &str, index: VestoIndex, dim: usize) -> (r: Result<(), VestoError>)
        requires
            old(self).wf(),
            old(self).has_field(vector_field@) ==> index.serves(&old(self).field(vector_field@).spec_store()),
            !old(self).has_field(vector_field@) ==> index.fresh(),
        ensures
            final(self).wf(),
            final(self).spec_name() == old(self).spec_name(),
            final(self).spec_metadata() == old(self).spec_metadata(),
            final(self).has_field(vector_field@),
            forall|i: int| 0 <= i < old(self).spec_fields().len() && #[trigger] old(self).spec_fields()[i].spec_name() != vector_field@
                ==> final(self).spec_fields()[i] == old(self).spec_fields()[i],
            old(self).has_field(vector_field@) ==> {
                &&& final(self).spec_fields().len() == old(self).spec_fields().len()
                &&& final(self).field(vector_field@).spec_store() == old(self).field(vector_field@).spec_store()
                &&& index_added(old(self).field(vector_field@).spec_indexes(), final(self).field(vector_field@).spec_indexes(), index, r)
            },
            !old(self).has_field(vector_field@) ==> {
                &&& final(self).spec_fields().drop_last() == old(self).spec_fields()
                &&& final(self).field(vector_field@).spec_store()@.dim == dim
                &&& final(self).field(vector_field@).spec_store().contents() == Map::<u64, Seq<u32>>::empty()
                &&& index_added(Seq::empty(), final(self).field(vector_field@).spec_indexes(), index, r)
            },
    {
        let ghost had = self.has_field(vector_field@);
        let ghost old_self = *self;
        let i = self.field_position(vector_field, dim);
        proof {
            if had {
                let k = choose|k: int| 0 <= k < old_self.spec_fields().len() && #[trigger] old_self.spec_fields()[k].spec_name() == vector_field@;
                assert(old_self.field(vector_field@).spec_name() == vector_field@);
                let f = old_self.field(vector_field@);
                let k2 = choose|k2: int| 0 <= k2 < old_self.spec_fields().len() && #[trigger] old_self.spec_fields()[k2].spec_name() == vector_field@;
                if k2 != i as int {
                    if k2 < i {
                        assert(old_self.spec_fields()[k2].spec_name() != old_self.spec_fields()[i as int].spec_name());
                    } else {
                        assert(old_self.spec_fields()[i as int].spec_name() != old_self.spec_fields()[k2].spec_name());
                    }
                }
            } else {
                index.lemma_fresh_serves(&self.vector_fields@[i as int].spec_store());
            }
        }
        let ghost before = self.vector_fields@;
        let r = self.vector_fields[i].add_index(index);
        proof {
            assert(self.vector_fields@ == before.update(i as int, self.vector_fields@[i as int]));
            self.lemma_fields_update(before, i as int);
            assert(self.spec_fields()[i as int].spec_name() == vector_field@);
            self.lemma_field_at(vector_field@, i as int);
            if had {
                old_self.lemma_field_at(vector_field@, i as int);
            } else {
                assert(before[i as int].spec_indexes() =~= Seq::<VestoIndex>::empty());
                assert(self.spec_fields().drop_last() =~= before.drop_last());
                assert(self.spec_fields().drop_last() =~= old(self).spec_fields());
            }
        }
        r
    }

    /// Inserts vectors into the field, with optional metadata (one per
    /// vector) recorded under the new ids. Metadata of another length gives
    /// `MetadataLengthMismatch`, an unknown field `KeyNotFound`.
    pub fn insert<K: Fn(MetricsName, &[u32], &[u32]) -> Result<u32, VestoError>, L: Fn() -> usize>(
        &mut self,
        vector_field: &str,
        vectors: Vec<Vec<u32>>,
        metadata: Option<Vec<Metadata>>,
        kernel: &K,
        draw_level: &L,
    ) -> (r: Result<Vec<EntityId>, VestoError>)
        requires
            old(self).wf(),
            kernel_ok(*kernel),
            levels_ok(*draw_level),
            old(self).has_field(vector_field@) ==> old(self).field(vector_field@).spec_store()@.next_id + vectors@.len() <= u64::MAX,
            metadata matches Some(m) ==> forall|i: int| 0 <= i < m@.len() ==> metadata_wf(#[trigger] m@[i]),
        ensures
            final(self).wf(),
            final(self).spec_name() == old(self).spec_name(),
            (metadata matches Some(m) && m@.len() != vectors@.len())
                ==> r == Err::<Vec<EntityId>, VestoError>(VestoError::MetadataLengthMismatch) && *final(self) == *old(self),
            (!(metadata matches Some(m) && m@.len() != vectors@.len()) && !old(self).has_field(vector_field@))
                ==> r == Err::<Vec<EntityId>, VestoError>(VestoError::KeyNotFound) && *final(self) == *old(self),
            r matches Ok(ids) ==> {
                &&& old(self).has_field(vector_field@)
                &&& final(self).has_field(vector_field@)
                &&& ids@.len() == vectors@.len()
                &&& forall|i: int| 0 <= i < ids@.len() ==> (#[trigger] ids@[i]).0 == old(self).field(vector_field@).spec_store()@.next_id + i
                &&& final(self).field(vector_field@).spec_store().contents() == fresh_rows(
                        old(self).field(vector_field@).spec_store().contents(),
                        old(self).field(vector_field@).spec_store()@.next_id, vectors_view(vectors@))
                &&& final(self).field(vector_field@).spec_indexes().len() == old(self).field(vector_field@).spec_indexes().len()
                &&& forall|j: int| 0 <= j < old(self).field(vector_field@).spec_indexes().len() ==>
                        took(old(self).field(vector_field@).spec_indexes()[j], #[trigger] final(self).field(vector_field@).spec_indexes()[j], ids@,
                            *kernel, *draw_level, final(self).field(vector_field@).spec_store().contents())
            },
            (!(metadata matches Some(m) && m@.len() != vectors@.len()) && old(self).has_field(vector_field@)
                && forall|i: int| 0 <= i < vectors@.len() ==> (#[trigger] vectors@[i])@.len() == old(self).field(vector_field@).spec_store()@.dim)
                ==> {
                    &&& final(self).has_field(vector_field@)
                    &&& final(self).field(vector_field@).spec_store().contents() == fresh_rows(
                        old(self).field(vector_field@).spec_store().contents(),
                        old(self).field(vector_field@).spec_store()@.next_id, vectors_view(vectors@))
                    &&& r matches Err(e) ==> exists|j: int| 0 <= j < old(self).field(vector_field@).spec_indexes().len()
                        && (forall|q: int| 0 <= q < j ==> took(old(self).field(vector_field@).spec_indexes()[q],
                            #[trigger] final(self).field(vector_field@).spec_indexes()[q],
                            ids_from(old(self).field(vector_field@).spec_store()@.next_id, vectors@.len()), *kernel, *draw_level,
                            final(self).field(vector_field@).spec_store().contents()))
                        && #[trigger] failed(old(self).field(vector_field@).spec_indexes()[j], final(self).field(vector_field@).spec_indexes()[j],
                            ids_from(old(self).field(vector_field@).spec_store()@.next_id, vectors@.len()), *kernel, *draw_level,
                            final(self).field(vector_field@).spec_store().contents(), e)
                },
            r is Err ==> final(self).spec_metadata() == old(self).spec_metadata(),
            (r is Ok && metadata is None) ==> final(self).spec_metadata() == old(self).spec_metadata(),
            r matches Ok(ids) ==> others_kept(old(self).spec_metadata(), final(self).spec_metadata(), ids@),
            r matches Ok(ids) ==> (metadata matches Some(m) ==> recorded(final(self).spec_metadata(), ids@, m@)),
    {
        if let Some(m) = &metadata {
            if m.len() != vectors.len() {
                return Err(VestoError::MetadataLengthMismatch);
            }
        }
        let i = match self.find_field(vector_field) {
            Some(i) => i,
            None => return Err(VestoError::KeyNotFound),
        };
        proof {
            self.lemma_field_at(vector_field@, i as int);
        }
        let ghost before = self.vector_fields@;
        let res = self.vector_fields[i].insert(vectors, kernel, draw_level);
        proof {
            assert(self.metadata@ == old(self).metadata@);
            assert forall|x: u64| #[trigger] self.spec_metadata().contains_key(x) implies metadata_wf(self.spec_metadata()[x]) by {
                assert(old(self).spec_metadata().contains_key(x));
            }
            assert(self.vector_fields@ == before.update(i as int, self.vector_fields@[i as int]));
            self.lemma_fields_update(before, i as int);
            self.lemma_field_at(vector_field@, i as int);
        }
        let ids = res?;
        let ghost mid = *self;
        match metadata {
            None => {
                assert(self.metadata@ == old(self).metadata@);
            },
            Some(meta) => {
                proof {
                    assert(self.metadata@ == old(self).metadata@);
                    assert forall|x: u64| #[trigger] self.metadata@.contains_key(x) implies metadata_wf(self.metadata@[x]) by {
                        assert(old(self).spec_metadata().contains_key(x));
                    }
                }
                let mut k: usize = 0;
                while k < meta.len()
                    invariant
                        k <= meta@.len(),
                        meta@.len() == ids@.len(),
                        self.vector_fields == mid.vector_fields,
                        self.name == mid.name,
                        forall|j: int| 0 <= j < k ==> #[trigger] self.metadata@.contains_key(ids@[j].0)
                            && metadata_view(self.metadata@[ids@[j].0]) == metadata_view(meta@[j]),
                        forall|a: int, b: int| 0 <= a < b < ids@.len() ==> (#[trigger] ids@[a]).0 != (#[trigger] ids@[b]).0,
                        others_kept(old(self).metadata@, self.metadata@, ids@),
                        forall|x: u64| #[trigger] self.metadata@.contains_key(x) ==> metadata_wf(self.metadata@[x]),
                        forall|q: int| 0 <= q < meta@.len() ==> metadata_wf(#[trigger] meta@[q]),
                    decreases meta.len() - k,
                {
                    let m = meta[k].duplicate();
                    proof {
                        lemma_metadata_wf_view(meta@[k as int], m);
                    }
                    let ghost pre = self.metadata@;
                    self.metadata.insert(ids[k].0, m);
                    proof {
                        assert forall|x: u64| !(exists|q: int| 0 <= q < ids@.len() && (#[trigger] ids@[q]).0 == x) implies {
                            &&& #[trigger] self.metadata@.contains_key(x) == old(self).metadata@.contains_key(x)
                            &&& old(self).metadata@.contains_key(x) ==> self.metadata@[x] == old(self).metadata@[x]
                        } by {
                            if ids@[k as int].0 == x {
                                assert(0 <= k < ids@.len() && ids@[k as int].0 == x);
                            }
                            assert(pre.contains_key(x) == old(self).metadata@.contains_key(x));
                        }
                        assert forall|j: int| 0 <= j < k + 1 implies #[trigger] self.metadata@.contains_key(ids@[j].0)
                            && metadata_view(self.metadata@[ids@[j].0]) == metadata_view(meta@[j]) by {
                            if j < k {
                                assert(ids@[j].0 != ids@[k as int].0);
                            }
                        }
                    }
                    k = k + 1;
                }
                proof {
                    assert(metadata == Some(meta));
                    assert(recorded(self.spec_metadata(), ids@, meta@)) by {
                        assert forall|q: int| 0 <= q < ids@.len() implies
                            #[trigger] self.spec_metadata().contains_key(ids@[q].0)
                                && metadata_view(self.spec_metadata()[ids@[q].0]) == metadata_view(meta@[q]) by {
                            assert(self.metadata@.contains_key(ids@[q].0));
                        }
                    }
                }
            },
        }
        proof {
            assert(old(self).has_field(vector_field@));
            assert(self.spec_fields()[i as int] == mid.spec_fields()[i as int]);
            assert(self.spec_fields()[i as int].spec_name() == vector_field@);
            assert(self.has_field(vector_field@));
            assert(self.field(vector_field@) == mid.field(vector_field@));
            assert(ids@.len() == vectors@.len());
            assert(others_kept(old(self).spec_metadata(), self.spec_metadata(), ids@));
            assert(old(self).field(vector_field@) == old(self).spec_fields()[i as int]);
            assert(forall|q: int| 0 <= q < ids@.len() ==> (#[trigger] ids@[q]).0 == old(self).field(vector_field@).spec_store()@.next_id + q);
            assert(self.field(vector_field@).spec_store().contents() == fresh_rows(
                        old(self).field(vector_field@).spec_store().contents(),
                        old(self).field(vector_field@).spec_store()@.next_id, vectors_view(vectors@)));
        }
        Ok(ids)
    }

    /// The field named `name` is the one at position `i`.
    proof fn lemma_field_at(&self, name: Seq<char>, i: int)
        requires
            self.wf(),
            0 <= i < self.spec_fields().len(),
            self.spec_fields()[i].spec_name() == name,
        ensures
            self.has_field(name),
            self.field(name) == self.spec_fields()[i],
    {
        let k = choose|k: int| 0 <= k < self.spec_fields().len() && #[trigger] self.spec_fields()[k].spec_name() == name;
        if k < i {
            assert(self.spec_fields()[k].spec_name() != self.spec_fields()[i].spec_name());
        } else if k > i {
            assert(self.spec_fields()[i].spec_name() != self.spec_fields()[k].spec_name());
        }
    }

    /// Searches an index of a field; each result comes with its vector and,
    /// when asked, a copy of its metadata. An unknown field or index gives
    /// `KeyNotFound`.
    pub fn search<K: Fn(MetricsName, &[u32], &[u32]) -> Result<u32, VestoError>>(
        &self,
        vector_field: &str,
        index_name: &str,
        query: &[u32],
        top_k: usize,
        with_metadata: bool,
        kernel: &K,
    ) -> (r: Result<Vec<(u32, Vec<u32>, Option<Metadata>)>, VestoError>)
        requires
            self.wf(),
            kernel_ok(*kernel),
        ensures
            !self.has_field(vector_field@) ==> r == Err::<Vec<(u32, Vec<u32>, Option<Metadata>)>, VestoError>(VestoError::KeyNotFound),
            self.has_field(vector_field@) && (forall|i: int| 0 <= i < self.field(vector_field@).spec_indexes().len()
                ==> #[trigger] self.field(vector_field@).spec_indexes()[i].spec_name() != index_name@)
                ==> r == Err::<Vec<(u32, Vec<u32>, Option<Metadata>)>, VestoError>(VestoError::KeyNotFound),
            self.has_field(vector_field@) ==> forall|i: int| 0 <= i < self.field(vector_field@).spec_indexes().len()
                && #[trigger] self.field(vector_field@).spec_indexes()[i].spec_name() == index_name@ ==> {
                    let f = self.field(vector_field@);
                    let ix = f.spec_indexes()[i];
                    &&& r matches Err(e) ==> ix.answers(&f.spec_store(), *kernel, query@, top_k, Err::<Seq<Scored>, VestoError>(e))
                    &&& r matches Ok(v) ==> exists|res: Seq<Scored>| #[trigger] ix.answers(&f.spec_store(), *kernel, query@, top_k, Ok::<Seq<Scored>, VestoError>(res))
                        && results_of(v@, res, f.spec_store().contents(), self.spec_metadata(), with_metadata)
                },
            r matches Ok(v) ==> self.has_field(vector_field@) && v@.len() <= top_k && forall|j: int| 0 <= j < v@.len() ==> {
                &&& (#[trigger] v@[j]).1@.len() == self.field(vector_field@).spec_store()@.dim
                &&& !with_metadata ==> v@[j].2 is None
            },
    {
        let i = match self.find_field(vector_field) {
            Some(i) => i,
            None => return Err(VestoError::KeyNotFound),
        };
        proof {
            self.lemma_field_at(vector_field@, i as int);
        }
        let field = &self.vector_fields[i];
        let result = match field.search(index_name, query, top_k, kernel) {
            Ok(res) => res,
            Err(e) => {
                return Err(e);
            },
        };
        let ghost md = self.spec_metadata();
        let mut out: Vec<(u32, Vec<u32>, Option<Metadata>)> = Vec::new();
        let mut j: usize = 0;
        while j < result.len()
            invariant
                j <= result@.len(),
                out@.len() == j,
                field.wf(),
                md == self.spec_metadata(),
                forall|q: int| 0 <= q < result@.len() ==> field.spec_store().contents().contains_key((#[trigger] result@[q]).1.0)
                    && result@[q].2@ == field.spec_store().contents()[result@[q].1.0],
                forall|q: int| 0 <= q < j ==> {
                    &&& (#[trigger] out@[q]).0 == result@[q].0
                    &&& out@[q].1@ == result@[q].2@
                    &&& (with_metadata && md.contains_key(result@[q].1.0))
                        ==> (out@[q].2 matches Some(m) && metadata_view(m) == metadata_view(md[result@[q].1.0]))
                    &&& !(with_metadata && md.contains_key(result@[q].1.0)) ==> out@[q].2 is None
                },
            decreases result.len() - j,
        {
            let (score, id, ref vector) = result[j];
            let meta = if with_metadata {
                match self.metadata.get(&id.0) {
                    Some(m) => Some(m.duplicate()),
                    None => None,
                }
            } else {
                None
            };
            out.push((score, crate::store::copy_row(vector), meta));
            j = j + 1;
        }
        proof {
            assert forall|q: int| 0 <= q < out@.len() implies (#[trigger] out@[q]).1@.len() == field.spec_store()@.dim by {
                field.spec_store().lemma_contents_dim(result@[q].1.0);
            }
            assert(results_of(out@, pairs_of(result@), field.spec_store().contents(), md, with_metadata));
        }
        Ok(out)
    }
}

/// The search results are the index's answer `res`, in order, each with its
/// entity's vector and, when metadata was asked for and is recorded, a copy
/// of it.
pub open spec fn results_of(
    v: Seq<(u32, Vec<u32>, Option<Metadata>)>,
    res: Seq<Scored>,
    contents: Map<u64, Seq<u32>>,
    md: Map<u64, Metadata>,
    with_metadata: bool,
) -> bool {
    &&& v.len() == res.len()
    &&& forall|j: int| 0 <= j < v.len() ==> {
        &&& (#[trigger] v[j]).0 == res[j].0
        &&& v[j].1@ == contents[res[j].1.0]
        &&& (with_metadata && md.contains_key(res[j].1.0)) ==> (v[j].2 matches Some(m) && metadata_view(m) == metadata_view(md[res[j].1.0]))
        &&& !(with_metadata && md.contains_key(res[j].1.0)) ==> v[j].2 is None
    }
}

} // verus!
