use std::collections::HashMap;
use vstd::prelude::*;

use crate::error::VestoError;
use crate::types::EntityId;

pub mod file;

verus! {

broadcast use vstd::std_specs::hash::group_hash_axioms;

/// The abstract state of a store: the vector length, the next id to hand
/// out, the ids and vectors by position, and the row recorded for each id.
pub struct StoreModel {
    pub dim: usize,
    pub next_id: u64,
    pub ids: Seq<u64>,
    pub rows: Seq<Seq<u32>>,
    pub pos: Map<u64, usize>,
}

/// For each id, the last position at which it occurs.
pub open spec fn last_positions(ids: Seq<u64>) -> Map<u64, usize>
    decreases ids.len(),
{
    if ids.len() == 0 {
        Map::empty()
    } else {
        last_positions(ids.drop_last()).insert(ids.last(), (ids.len() - 1) as usize)
    }
}

/// What a store holds: under each id, the row recorded for it (an id whose
/// recorded row does not exist holds nothing).
pub open spec fn model_contents(m: StoreModel) -> Map<u64, Seq<u32>> {
    Map::new(
        |k: u64| m.pos.contains_key(k) && (m.pos[k] as int) < m.rows.len(),
        |k: u64| m.rows[m.pos[k] as int],
    )
}

/// Every recorded row exists.
pub open spec fn positions_in_rows(m: StoreModel) -> bool {
    forall|k: u64| #[trigger] m.pos.contains_key(k) ==> (m.pos[k] as int) < m.rows.len()
}

/// Ids and rows pair up position by position: one row per id, each id
/// recorded at its last position.
pub open spec fn aligned(m: StoreModel) -> bool {
    &&& m.rows.len() == m.ids.len()
    &&& m.pos == last_positions(m.ids)
}

/// The vectors of one vector field, each under its entity id. Vector
/// components are single-precision floats held by their bit patterns.
pub struct VestoStore {
    /// position -> id
    ids: Vec<EntityId>,
    /// position -> vector
    rows: Vec<Vec<u32>>,
    /// the length of every vector
    dim: usize,
    /// id -> row
    id_to_pos: HashMap<u64, usize>,
    /// the id the next inserted vector gets
    next_id: u64,
}

impl View for VestoStore {
    type V = StoreModel;

    closed spec fn view(&self) -> StoreModel {
        StoreModel {
            dim: self.dim,
            next_id: self.next_id,
            ids: self.ids@.map_values(|e: EntityId| e.0),
            rows: self.rows@.map_values(|r: Vec<u32>| r@),
            pos: self.id_to_pos@,
        }
    }
}

/// A model is consistent: every row has the model's length.
pub open spec fn model_wf(m: StoreModel) -> bool {
    forall|p: int| 0 <= p < m.rows.len() ==> (#[trigger] m.rows[p]).len() == m.dim
}

impl VestoStore {
    /// The store's internal consistency: every row has the store's length.
    pub closed spec fn wf(&self) -> bool {
        model_wf(self@)
    }

    /// Every id's recorded row exists (true of every store built by inserts;
    /// a loaded file may record more ids than it has rows).
    pub open spec fn in_rows(&self) -> bool {
        positions_in_rows(self@)
    }

    /// Every one of these ids that the store records has its row, so that
    /// looking any of them up finds a row.
    pub open spec fn rows_exist_for(&self, ids: Seq<EntityId>) -> bool {
        forall|i: int| 0 <= i < ids.len() && #[trigger] self@.pos.contains_key(ids[i].0)
            ==> (self@.pos[ids[i].0] as int) < self@.rows.len()
    }

    /// What the store holds: the vector under each id.
    pub open spec fn contents(&self) -> Map<u64, Seq<u32>> {
        model_contents(self@)
    }

    /// A store holds finitely many ids.
    pub proof fn lemma_contents_finite(&self)
        ensures
            self.contents().dom().finite(),
    {
        assert(self@.pos.dom().finite());
        assert(self.contents().dom() =~= self@.pos.dom().filter(|k: u64| (self@.pos[k] as int) < self@.rows.len()));
    }

    /// Every stored vector has the store's length.
    pub proof fn lemma_contents_dim(&self, k: u64)
        requires
            self.wf(),
            self.contents().contains_key(k),
        ensures
            self.contents()[k].len() == self@.dim,
    {
    }

    /// An empty store for vectors of length `dim`.
    pub fn new(dim: usize) -> (s: Self)
        ensures
            s.wf(),
            s@.dim == dim,
            s@.next_id == 0,
            s@.ids.len() == 0,
            s@.rows.len() == 0,
            aligned(s@),
            positions_in_rows(s@),
            s.contents() == Map::<u64, Seq<u32>>::empty(),
    {
        let s = Self {
            ids: Vec::new(),
            rows: Vec::new(),
            dim,
            id_to_pos: HashMap::new(),
            next_id: 0,
        };
        assert(s@.ids =~= Seq::<u64>::empty());
        assert(s@.pos =~= last_positions(s@.ids));
        assert(s.contents() =~= Map::<u64, Seq<u32>>::empty());
        s
    }

    /// The length of the stored vectors.
    pub fn dim(&self) -> (d: usize)
        ensures
            d == self@.dim,
    {
        self.dim
    }

    /// The number of stored vectors.
    pub fn len(&self) -> (n: usize)
        requires
            self.wf(),
        ensures
            n == self@.ids.len(),
    {
        self.ids.len()
    }

    /// The id the next inserted vector will get.
    pub fn next_id(&self) -> (n: u64)
        ensures
            n == self@.next_id,
    {
        self.next_id
    }

    /// Stores vectors under fresh consecutive ids, starting at the next id,
    /// each recorded at the row it is appended as. Nothing is stored if one of
    /// them does not have the store's dimension: the first such vector is
    /// reported.
    pub fn insert(&mut self, vectors: Vec<Vec<u32>>) -> (r: Result<Vec<EntityId>, VestoError>)
        requires
            old(self).wf(),
            (forall|i: int| 0 <= i < vectors@.len() ==> (#[trigger] vectors@[i])@.len() == old(self)@.dim)
                ==> old(self)@.next_id + vectors@.len() <= u64::MAX,
        ensures
            final(self).wf(),
            final(self)@.dim == old(self)@.dim,
            match r {
                Ok(ids) => {
                    &&& forall|i: int| 0 <= i < vectors@.len() ==> (#[trigger] vectors@[i])@.len() == old(self)@.dim
                    &&& ids@.len() == vectors@.len()
                    &&& forall|i: int| 0 <= i < ids@.len() ==> (#[trigger] ids@[i]).0 == old(self)@.next_id + i
                    &&& final(self)@.next_id == old(self)@.next_id + vectors@.len()
                    &&& final(self)@.ids == old(self)@.ids + ids@.map_values(|e: EntityId| e.0)
                    &&& final(self)@.rows == old(self)@.rows + vectors_view(vectors@)
                    &&& final(self)@.pos == fresh_positions(old(self)@.pos, old(self)@.next_id, old(self)@.rows.len(), vectors@.len())
                    &&& positions_in_rows(old(self)@) ==> positions_in_rows(final(self)@)
                        && final(self).contents() == fresh_rows(old(self).contents(), old(self)@.next_id, vectors_view(vectors@))
                    &&& aligned(old(self)@) ==> aligned(final(self)@)
                },
                Err(e) => {
                    &&& final(self)@ == old(self)@
                    &&& exists|i: int| #![trigger vectors@[i]] {
                        &&& 0 <= i < vectors@.len()
                        &&& vectors@[i]@.len() != old(self)@.dim
                        &&& forall|j: int| 0 <= j < i ==> vectors@[j]@.len() == old(self)@.dim
                        &&& e == VestoError::DimensionMismatch { expected: old(self)@.dim, received: vectors@[i]@.len() as usize }
                    }
                },
            },
    {
        let n = vectors.len();
        let dim = self.dim;
        let mut i: usize = 0;
        while i < n
            invariant
                n == vectors@.len(),
                dim == self.dim,
                self.wf(),
                i <= n,
                forall|j: int| 0 <= j < i ==> vectors@[j]@.len() == dim,
            decreases n - i,
        {
            if vectors[i].len() != dim {
                let e = VestoError::DimensionMismatch { expected: dim, received: vectors[i].len() };
                return Err(e);
            }
            i = i + 1;
        }
        let ghost old_self = *self;
        let ghost start = self.next_id;
        let ghost first_row = self@.rows.len();
        let ghost vs = vectors_view(vectors@);
        let ghost in_rows = positions_in_rows(old_self@);
        let ghost was_aligned = aligned(old_self@);
        let mut ids: Vec<EntityId> = Vec::new();
        let mut k: usize = 0;
        while k < n
            invariant
                n == vs.len(),
                n == vectors@.len(),
                vs == vectors_view(vectors@),
                k <= n,
                dim == self.dim,
                dim == old_self.dim,
                self.wf(),
                old_self.wf(),
                forall|j: int| 0 <= j < n ==> #[trigger] vs[j].len() == dim,
                start == old_self.next_id,
                start + n <= u64::MAX,
                first_row == old_self@.rows.len(),
                in_rows == positions_in_rows(old_self@),
                was_aligned == aligned(old_self@),
                self.next_id == start + k,
                ids@.len() == k,
                forall|j: int| 0 <= j < k ==> (#[trigger] ids@[j]).0 == start + j,
                self@.ids == old_self@.ids + ids@.map_values(|e: EntityId| e.0),
                self@.rows == old_self@.rows + vs.take(k as int),
                self@.pos == fresh_positions(old_self@.pos, start, first_row, k as nat),
                in_rows ==> positions_in_rows(self@) && self.contents() == fresh_rows(old_self.contents(), start, vs.take(k as int)),
                was_aligned ==> aligned(self@),
            decreases n - k,
        {
            let id = EntityId(self.next_id);
            let pos = self.rows.len();
            let row = copy_row(&vectors[k]);
            let ghost pre = *self;
            self.rows.push(row);
            self.ids.push(id);
            self.id_to_pos.insert(id.0, pos);
            self.next_id = self.next_id + 1;
            ids.push(id);
            proof {
                assert(vs[k as int] == vectors@[k as int]@);
                assert(self@.ids =~= pre@.ids.push(id.0));
                assert(self@.rows =~= pre@.rows.push(vs[k as int]));
                assert(self@.ids.drop_last() =~= pre@.ids);
                assert(self@.ids =~= old_self@.ids + ids@.map_values(|e: EntityId| e.0));
                assert(self@.rows =~= old_self@.rows + vs.take(k + 1));
                assert(self.rows@.len() == self.rows.len());
                assert(pre.rows@.len() == pre.rows.len());
                assert(self@.pos =~= fresh_positions(old_self@.pos, start, first_row, (k + 1) as nat));
                if was_aligned {
                    assert(self@.pos =~= last_positions(self@.ids));
                }
                if in_rows {
                    assert(positions_in_rows(self@));
                    let c1 = fresh_rows(old_self.contents(), start, vs.take(k + 1));
                    assert forall|q: u64| #[trigger] self.contents().contains_key(q) == c1.contains_key(q) by {
                        if q != id.0 {
                            assert(self.contents().contains_key(q) == pre.contents().contains_key(q));
                        }
                    }
                    assert forall|q: u64| #[trigger] self.contents().contains_key(q) implies self.contents()[q] == c1[q] by {
                        if q == id.0 {
                            assert(vs.take(k + 1)[q - start] == vs[k as int]);
                        } else {
                            let pp = pre@.pos[q];
                            assert(self@.rows[pp as int] == pre@.rows[pp as int]);
                            assert(self.contents()[q] == pre.contents()[q]);
                            if start <= q < start + k {
                                assert(vs.take(k + 1)[q - start] == vs.take(k as int)[q - start]);
                            }
                        }
                    }
                    assert(self.contents() =~= c1);
                }
            }
            k = k + 1;
        }
        proof {
            assert(vs.take(n as int) =~= vs);
        }
        Ok(ids)
    }

    /// The vector at a position.
    pub(crate) fn row_ref(&self, p: usize) -> (r: &Vec<u32>)
        requires
            self.wf(),
            p < self@.rows.len(),
        ensures
            r@ == self@.rows[p as int],
    {
        &self.rows[p]
    }

    /// A store from its parts.
    pub(crate) fn from_parts(
        ids: Vec<EntityId>,
        rows: Vec<Vec<u32>>,
        dim: usize,
        id_to_pos: HashMap<u64, usize>,
        next_id: u64,
    ) -> (s: Self)
        requires
            forall|p: int| 0 <= p < rows@.len() ==> (#[trigger] rows@[p])@.len() == dim,
        ensures
            s.wf(),
            s@.dim == dim,
            s@.next_id == next_id,
            s@.ids == ids@.map_values(|e: EntityId| e.0),
            s@.rows == rows@.map_values(|r: Vec<u32>| r@),
            s@.pos == id_to_pos@,
    {
        VestoStore { ids, rows, dim, id_to_pos, next_id }
    }

    /// The vector stored under `id`, if any.
    pub fn get(&self, id: &EntityId) -> (r: Option<Vec<u32>>)
        requires
            self.wf(),
            self@.pos.contains_key(id.0) ==> (self@.pos[id.0] as int) < self@.rows.len(),
        ensures
            match r {
                Some(v) => self.contents().contains_key(id.0) && v@ == self.contents()[id.0],
                None => !self.contents().contains_key(id.0),
            },
    {
        proof {
            assert(self.rows@.len() == self.rows.len());
        }
        match self.id_to_pos.get(&id.0) {
            Some(pos) => {
                let p = *pos;
                Some(copy_row(&self.rows[p]))
            },
            None => None,
        }
    }

    /// The vector stored under `id`, borrowed, if any.
    pub fn get_view(&self, id: &EntityId) -> (r: Option<&Vec<u32>>)
        requires
            self.wf(),
            self@.pos.contains_key(id.0) ==> (self@.pos[id.0] as int) < self@.rows.len(),
        ensures
            match r {
                Some(v) => self.contents().contains_key(id.0) && v@ == self.contents()[id.0],
                None => !self.contents().contains_key(id.0),
            },
    {
        proof {
            assert(self.rows@.len() == self.rows.len());
        }
        match self.id_to_pos.get(&id.0) {
            Some(pos) => Some(&self.rows[*pos]),
            None => None,
        }
    }
}

/// `pos` with the ids `start`, `start + 1`, ... (`n` of them) recorded at
/// the rows `first_row`, `first_row + 1`, ..., replacing what was there.
pub open spec fn fresh_positions(pos: Map<u64, usize>, start: u64, first_row: nat, n: nat) -> Map<u64, usize> {
    Map::new(
        |k: u64| pos.contains_key(k) || (start <= k < start + n),
        |k: u64| if start <= k < start + n { (first_row + (k - start)) as usize } else { pos[k] },
    )
}

/// The views of a list of vectors.
pub open spec fn vectors_view(vs: Seq<Vec<u32>>) -> Seq<Seq<u32>> {
    vs.map_values(|v: Vec<u32>| v@)
}

/// `contents` with `vs[i]` stored under id `start + i`, replacing what was
/// there.
pub open spec fn fresh_rows(contents: Map<u64, Seq<u32>>, start: u64, vs: Seq<Seq<u32>>) -> Map<u64, Seq<u32>> {
    Map::new(
        |k: u64| contents.contains_key(k) || (start <= k < start + vs.len()),
        |k: u64| if start <= k < start + vs.len() { vs[k - start] } else { contents[k] },
    )
}

/// A copy of a vector.
pub fn copy_row(v: &Vec<u32>) -> (r: Vec<u32>)
    ensures
        r@ == v@,
{
    let mut r: Vec<u32> = Vec::with_capacity(v.len());
    let mut i: usize = 0;
    while i < v.len()
        invariant
            i <= v.len(),
            r@ == v@.take(i as int),
        decreases v.len() - i,
    {
        r.push(v[i]);
        i = i + 1;
        proof {
            assert(r@ =~= v@.take(i as int));
        }
    }
    proof {
        assert(v@.take(i as int) =~= v@);
    }
    r
}

} // verus!
