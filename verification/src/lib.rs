pub mod collection;
pub mod error;
pub mod flat;
pub mod hnsw;
pub mod hnsw_index;
pub mod hnsw_laws;
pub mod index;
pub mod kernel;
pub mod laws;
pub mod metrics;
pub mod params;
pub mod ranking;
pub mod store;
pub mod types;
pub mod vector_field;

use vstd::prelude::*;
use vstd::string::StringExecFns;

use crate::collection::Collection;
use crate::error::VestoError;

verus! {

/// The database: named collections.
pub struct Vesto {
    collections: Vec<Collection>,
}

impl Vesto {
    /// The collections, in the order they were added.
    pub closed spec fn spec_collections(&self) -> Seq<Collection> {
        self.collections@
    }

    /// The collections' names.
    pub open spec fn names(&self) -> Seq<Seq<char>> {
        self.spec_collections().map_values(|c: Collection| c.spec_name())
    }

    /// Every collection is consistent and no two share a name.
    pub open spec fn wf(&self) -> bool {
        &&& forall|i: int| 0 <= i < self.spec_collections().len() ==> (#[trigger] self.spec_collections()[i]).wf()
        &&& forall|i: int, j: int| 0 <= i < j < self.spec_collections().len() ==>
            #[trigger] self.spec_collections()[i].spec_name() != #[trigger] self.spec_collections()[j].spec_name()
    }

    /// A database without collections.
    pub fn new() -> (r: Self)
        ensures
            r.wf(),
            r.spec_collections().len() == 0,
    {
        Self { collections: Vec::new() }
    }

    /// The position of the collection with this name.
    fn find(&self, name: &str) -> (r: Option<usize>)
        ensures
            match r {
                Some(i) => i < self.spec_collections().len() && self.spec_collections()[i as int].spec_name() == name@,
                None => !self.names().contains(name@),
            },
    {
        let key = String::from_str(name);
        let mut i: usize = 0;
        while i < self.collections.len()
            invariant
                i <= self.collections@.len(),
                key@ == name@,
                forall|j: int| 0 <= j < i ==> #[trigger] self.collections@[j].spec_name() != name@,
            decreases self.collections.len() - i,
        {
            let n = self.collections[i].name();
            if n == key {
                return Some(i);
            }
            i = i + 1;
        }
        proof {
            if self.names().contains(name@) {
                let j = choose|j: int| 0 <= j < self.names().len() && self.names()[j] == name@;
                assert(self.collections@[j].spec_name() == name@);
            }
        }
        None
    }

    /// Registers a collection under its name; a taken name gives
    /// `DuplicateCollection` and changes nothing.
    pub fn add_collection(&mut self, collection: Collection) -> (r: Result<(), VestoError>)
        requires
            old(self).wf(),
            collection.wf(),
        ensures
            final(self).wf(),
            old(self).names().contains(collection.spec_name()) ==> {
                &&& r == Err::<(), VestoError>(VestoError::DuplicateCollection)
                &&& final(self).spec_collections() == old(self).spec_collections()
            },
            !old(self).names().contains(collection.spec_name()) ==> {
                &&& r is Ok
                &&& final(self).spec_collections() == old(self).spec_collections().push(collection)
            },
    {
        let name = collection.name();
        if let Some(i) = self.find(name.as_str()) {
            proof {
                assert(self.names()[i as int] == collection.spec_name());
            }
            return Err(VestoError::DuplicateCollection);
        }
        let ghost before = self.collections@;
        self.collections.push(collection);
        proof {
            assert forall|i: int, j: int| 0 <= i < j < self.collections@.len() implies
                #[trigger] self.collections@[i].spec_name() != #[trigger] self.collections@[j].spec_name() by {
                assert(self.collections@[i] == before[i]);
                if j == before.len() {
                    assert(old(self).names()[i] == before[i].spec_name());
                } else {
                    assert(self.collections@[j] == before[j]);
                }
            }
            assert forall|i: int| 0 <= i < self.collections@.len() implies (#[trigger] self.collections@[i]).wf() by {
                if i < before.len() {
                    assert(self.collections@[i] == before[i]);
                }
            }
        }
        Ok(())
    }

    /// The collection with this name, if any.
    pub fn get_collection(&self, collection_name: &str) -> (r: Option<&Collection>)
        ensures
            match r {
                Some(c) => self.names().contains(collection_name@) && c.spec_name() == collection_name@
                    && self.spec_collections().contains(*c),
                None => !self.names().contains(collection_name@),
            },
    {
        match self.find(collection_name) {
            Some(i) => {
                proof {
                    assert(self.names()[i as int] == collection_name@);
                }
                Some(&self.collections[i])
            },
            None => None,
        }
    }

    /// The collection with this name, to change it, if any.
    pub fn get_collection_mut(&mut self, collection_name: &str) -> (r: Option<&mut Collection>)
        ensures
            match r {
                Some(c) => exists|i: int| 0 <= i < old(self).spec_collections().len()
                    && old(self).spec_collections()[i].spec_name() == collection_name@
                    && *c == #[trigger] old(self).spec_collections()[i]
                    && final(self).spec_collections() == old(self).spec_collections().update(i, *final(c)),
                None => !old(self).names().contains(collection_name@) && *final(self) == *old(self),
            },
    {
        match self.find(collection_name) {
            Some(i) => Some(&mut self.collections[i]),
            None => None,
        }
    }

    /// The number of collections.
    pub fn len(&self) -> (n: usize)
        ensures
            n == self.spec_collections().len(),
    {
        self.collections.len()
    }
}

} // verus!
