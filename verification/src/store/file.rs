use std::collections::HashMap;
use vstd::prelude::*;

use crate::error::VestoError;
use crate::store::{StoreModel, VestoStore, last_positions, model_wf};
use crate::types::EntityId;

verus! {

broadcast use vstd::std_specs::hash::group_hash_axioms;

// The file of a store is laid out as
//   "VSTO" | version: u32 | dim: u64 | nrows: u64 | meta length: u64 | meta | vectors
// with the integers little-endian, the meta being the postcard encoding of
// (ids, next id), and the vectors the rows' components, four bytes each.

/// The file's first four bytes.
pub open spec fn magic() -> Seq<u8> {
    seq![0x56u8, 0x53u8, 0x54u8, 0x4Fu8]
}

/// The file format version this library reads and writes.
pub open spec fn format_version() -> nat {
    1
}

/// The little-endian 32-bit number at `at`.
#[verifier::opaque]
pub open spec fn le_u32(b: Seq<u8>, at: int) -> nat {
    (b[at] + 256 * b[at + 1] + 65536 * b[at + 2] + 16777216 * b[at + 3]) as nat
}

/// The little-endian 64-bit number at `at`.
pub open spec fn le_u64(b: Seq<u8>, at: int) -> nat {
    le_u32(b, at) + 4294967296 * le_u32(b, at + 4)
}

/// The four little-endian bytes of `x`.
#[verifier::opaque]
pub open spec fn u32_le(x: nat) -> Seq<u8> {
    seq![(x % 256) as u8, ((x / 256) % 256) as u8, ((x / 65536) % 256) as u8, ((x / 16777216) % 256) as u8]
}

/// The four big-endian bytes of `x`.
#[verifier::opaque]
pub open spec fn u32_be(x: nat) -> Seq<u8> {
    seq![((x / 16777216) % 256) as u8, ((x / 65536) % 256) as u8, ((x / 256) % 256) as u8, (x % 256) as u8]
}

/// The eight little-endian bytes of `x`.
pub open spec fn u64_le(x: nat) -> Seq<u8> {
    u32_le(x % 4294967296) + u32_le(x / 4294967296)
}

/// Words as bytes, four per word, little- or big-endian.
pub open spec fn word_bytes(ws: Seq<u32>, little: bool) -> Seq<u8> {
    Seq::new(4 * ws.len(), |i: int| if little { u32_le(ws[i / 4] as nat)[i % 4] } else { u32_be(ws[i / 4] as nat)[i % 4] })
}

/// The rows one after the other.
pub open spec fn flatten(rows: Seq<Seq<u32>>) -> Seq<u32>
    decreases rows.len(),
{
    if rows.len() == 0 {
        Seq::empty()
    } else {
        flatten(rows.drop_last()) + rows.last()
    }
}

/// The varint bytes of `x`: seven bits a byte, the low bits first, the top
/// bit set on every byte but the last.
pub open spec fn varint(x: nat) -> Seq<u8>
    decreases x,
{
    if x < 128 {
        seq![x as u8]
    } else {
        seq![(x % 128 + 128) as u8] + varint(x / 128)
    }
}

/// The varints of the numbers, one after the other.
pub open spec fn varints(xs: Seq<u64>) -> Seq<u8>
    decreases xs.len(),
{
    if xs.len() == 0 {
        Seq::empty()
    } else {
        varints(xs.drop_last()) + varint(xs.last() as nat)
    }
}

/// The meta bytes of a saved store, the postcard encoding of the pair
/// (ids, next id): the number of ids, each id, and the next id, as varints.
pub open spec fn meta_wire(ids: Seq<u64>, next_id: u64) -> Seq<u8> {
    varint(ids.len()) + varints(ids) + varint(next_id as nat)
}

/// What `postcard::from_bytes` reads as (ids, next id) from the bytes, if
/// they hold such a value.
pub uninterp spec fn postcard_meta_decode(bytes: Seq<u8>) -> Option<(Seq<u64>, u64)>;

/// The bytes a store is saved as, with the vectors written in the given
/// byte order.
pub open spec fn spec_save_bytes(m: StoreModel, meta: Seq<u8>, little: bool) -> Seq<u8> {
    magic() + u32_le(format_version()) + u64_le(m.dim as nat) + u64_le(m.rows.len()) + u64_le(meta.len())
        + meta + word_bytes(flatten(m.rows), little)
}

/// Where the meta ends.
pub open spec fn meta_end(b: Seq<u8>) -> int {
    32 + file_meta_len(b)
}

/// The header's dimension, as a `usize`.
pub open spec fn file_dim(b: Seq<u8>) -> usize {
    le_u64(b, 8) as usize
}

/// The header's row count, as a `usize`.
pub open spec fn file_nrows(b: Seq<u8>) -> usize {
    le_u64(b, 16) as usize
}

/// The header's meta length, as a `usize`.
pub open spec fn file_meta_len(b: Seq<u8>) -> usize {
    le_u64(b, 24) as usize
}

/// The number of vector bytes a header announces.
pub open spec fn payload_len(b: Seq<u8>) -> int {
    file_nrows(b) * file_dim(b) * 4
}

/// Loading these bytes would panic: a read slices past the end, or the
/// payload size overflows.
pub open spec fn load_panics(b: Seq<u8>) -> bool {
    ||| b.len() < 4
    ||| (b.subrange(0, 4) == magic() && version_panics(b))
}

/// After a good magic: the version cannot be read, or the rest panics.
pub open spec fn version_panics(b: Seq<u8>) -> bool {
    ||| b.len() < 8
    ||| (le_u32(b, 4) == format_version() && header_panics(b))
}

/// After a good version: the header or meta runs past the end, or the
/// payload does.
pub open spec fn header_panics(b: Seq<u8>) -> bool {
    ||| b.len() < 32
    ||| meta_end(b) > b.len()
    ||| (postcard_meta_decode(b.subrange(32, meta_end(b))) is Some && payload_panics(b))
}

/// The payload size overflows or runs past the end.
pub open spec fn payload_panics(b: Seq<u8>) -> bool {
    ||| payload_len(b) > usize::MAX
    ||| meta_end(b) + payload_len(b) > b.len()
}

/// The vectors a file holds: `nrows` rows of `dim` words from `base` on.
pub open spec fn file_rows(b: Seq<u8>, base: int, nrows: nat, dim: nat) -> Seq<Seq<u32>> {
    Seq::new(nrows, |p: int| Seq::new(dim, |j: int| le_u32(b, base + 4 * (p * dim + j)) as u32))
}

/// A store as it reads back from its saved bytes: the same, but with each
/// id recorded at its last position among the ids.
pub open spec fn reloaded(m: StoreModel) -> StoreModel {
    StoreModel { dim: m.dim, next_id: m.next_id, ids: m.ids, rows: m.rows, pos: last_positions(m.ids) }
}

/// What loading the bytes gives (for bytes on which loading does not panic):
/// the header's dimension, the meta's ids and next id, the header's number
/// of rows, and each id recorded at its last position among the ids (the
/// numbers of ids and of rows may differ).
pub open spec fn spec_load(b: Seq<u8>) -> Result<StoreModel, VestoError> {
    if b.subrange(0, 4) != magic() {
        Err(VestoError::BadHeader)
    } else if le_u32(b, 4) != format_version() {
        Err(VestoError::BadVersion)
    } else {
        match postcard_meta_decode(b.subrange(32, meta_end(b))) {
            None => Err(VestoError::DeserializeError),
            Some((ids, next_id)) => {
                let dim = file_dim(b);
                let nrows = file_nrows(b);
                Ok(StoreModel {
                    dim,
                    next_id,
                    ids,
                    rows: file_rows(b, meta_end(b), nrows as nat, dim as nat),
                    pos: last_positions(ids),
                })
            },
        }
    }
}

/// `postcard::to_allocvec` on (ids, next id). The contract claims that it
/// succeeds (a growable buffer and a list of known length leave it no way to
/// fail), that the bytes are postcard's wire format for the pair (the
/// list's length, its entries and the next id as varints), and that
/// `postcard::from_bytes` reads the same value back from them.
#[verifier::external_body]
fn encode_meta(ids: &Vec<u64>, next_id: u64) -> (r: Option<Vec<u8>>)
    ensures
        r is Some,
        r matches Some(b) ==> b@ == meta_wire(ids@, next_id) && postcard_meta_decode(b@) == Some((ids@, next_id)),
{
    postcard::to_allocvec(&(ids, next_id)).ok()
}

/// `postcard::from_bytes` reading (ids, next id).
#[verifier::external_body]
fn decode_meta(b: &[u8]) -> (r: Option<(Vec<u64>, u64)>)
    ensures
        match r {
            Some((ids, n)) => postcard_meta_decode(b@) == Some((ids@, n)),
            None => postcard_meta_decode(b@) is None,
        },
{
    postcard::from_bytes::<(Vec<u64>, u64)>(b).ok()
}

/// `bytemuck::cast_slice` from words to bytes: each word's four bytes in the
/// machine's byte order. The contract claims the byte order is one of the
/// two; which one depends on the machine and is not stated.
#[verifier::external_body]
fn native_word_bytes(ws: &[u32]) -> (r: Vec<u8>)
    ensures
        r@ == word_bytes(ws@, true) || r@ == word_bytes(ws@, false),
{
    bytemuck::cast_slice::<u32, u8>(ws).to_vec()
}

proof fn lemma_u32_le_len(x: nat)
    ensures
        u32_le(x).len() == 4,
        u64_le(x).len() == 8,
{
    reveal(u32_le);
}

proof fn lemma_u32_le_roundtrip(x: nat)
    requires
        x < 4294967296,
    ensures
        le_u32(u32_le(x), 0) == x,
        u32_le(x).len() == 4,
{
    reveal(u32_le);
    reveal(le_u32);
    let s = u32_le(x);
    assert(s[0] == x % 256);
    assert(s[1] == (x / 256) % 256);
    assert(s[2] == (x / 65536) % 256);
    assert(s[3] == (x / 16777216) % 256);
    assert(x == x % 256 + 256 * ((x / 256) % 256) + 65536 * ((x / 65536) % 256) + 16777216 * ((x / 16777216) % 256))
        by (nonlinear_arith)
        requires x < 4294967296;
}

proof fn lemma_u64_le_roundtrip(x: nat)
    requires
        x < 18446744073709551616,
    ensures
        le_u64(u64_le(x), 0) == x,
        u64_le(x).len() == 8,
{
    let lo = x % 4294967296;
    let hi = x / 4294967296;
    assert(hi < 4294967296) by (nonlinear_arith)
        requires x < 18446744073709551616, hi == x / 4294967296;
    lemma_u32_le_roundtrip(lo);
    lemma_u32_le_roundtrip(hi);
    reveal(le_u32);
    let s = u64_le(x);
    assert(s.subrange(0, 4) =~= u32_le(lo));
    assert(s.subrange(4, 8) =~= u32_le(hi));
    assert(le_u32(s, 0) == le_u32(u32_le(lo), 0));
    assert(le_u32(s, 4) == le_u32(u32_le(hi), 0));
    assert(x == lo + 4294967296 * hi) by (nonlinear_arith)
        requires lo == x % 4294967296, hi == x / 4294967296;
}

/// Reading a little-endian word back from its bytes inside a longer run.
proof fn lemma_le_u32_at(b: Seq<u8>, at: int, x: nat)
    requires
        0 <= at,
        at + 4 <= b.len(),
        x < 4294967296,
        b.subrange(at, at + 4) == u32_le(x),
    ensures
        le_u32(b, at) == x,
{
    lemma_u32_le_roundtrip(x);
    reveal(le_u32);
    let s = b.subrange(at, at + 4);
    assert(b[at] == s[0]);
    assert(b[at + 1] == s[1]);
    assert(b[at + 2] == s[2]);
    assert(b[at + 3] == s[3]);
}

proof fn lemma_le_u64_at(b: Seq<u8>, at: int, x: nat)
    requires
        0 <= at,
        at + 8 <= b.len(),
        x < 18446744073709551616,
        b.subrange(at, at + 8) == u64_le(x),
    ensures
        le_u64(b, at) == x,
{
    lemma_u64_le_roundtrip(x);
    reveal(le_u32);
    let s = b.subrange(at, at + 8);
    assert forall|i: int| 0 <= i < 8 implies b[at + i] == #[trigger] s[i] by {}
    assert(le_u32(b, at) == le_u32(s, 0));
    assert(le_u32(b, at + 4) == le_u32(s, 4));
}

proof fn lemma_flatten_len(rows: Seq<Seq<u32>>, dim: nat)
    requires
        forall|p: int| 0 <= p < rows.len() ==> (#[trigger] rows[p]).len() == dim,
    ensures
        flatten(rows).len() == rows.len() * dim,
    decreases rows.len(),
{
    if rows.len() > 0 {
        let t = rows.drop_last();
        assert forall|p: int| 0 <= p < t.len() implies (#[trigger] t[p]).len() == dim by {
            assert(t[p] == rows[p]);
        }
        lemma_flatten_len(t, dim);
        assert(rows[rows.len() - 1] == rows.last());
        assert(rows.len() * dim == t.len() * dim + dim) by (nonlinear_arith)
            requires t.len() + 1 == rows.len();
    }
}

proof fn lemma_flatten_index(rows: Seq<Seq<u32>>, dim: nat, p: int, j: int)
    requires
        forall|q: int| 0 <= q < rows.len() ==> (#[trigger] rows[q]).len() == dim,
        0 <= p < rows.len(),
        0 <= j < dim,
    ensures
        p * dim + j < flatten(rows).len(),
        flatten(rows)[p * dim + j] == rows[p][j],
    decreases rows.len(),
{
    lemma_flatten_len(rows, dim);
    let t = rows.drop_last();
    assert forall|q: int| 0 <= q < t.len() implies (#[trigger] t[q]).len() == dim by {
        assert(t[q] == rows[q]);
    }
    lemma_flatten_len(t, dim);
    assert(rows[rows.len() - 1] == rows.last());
    if p < t.len() {
        lemma_flatten_index(t, dim, p, j);
        assert(t[p] == rows[p]);
    } else {
        assert(p * dim == t.len() * dim);
    }
    assert(p * dim + j < rows.len() * dim) by (nonlinear_arith)
        requires 0 <= p < rows.len(), 0 <= j < dim;
}

proof fn lemma_header_of_saved(m: StoreModel, meta: Seq<u8>, b: Seq<u8>)
    requires
        model_wf(m),
        m.rows.len() <= usize::MAX,
        b == spec_save_bytes(m, meta, true),
        b.len() <= usize::MAX,
    ensures
        b.subrange(0, 4) == magic(),
        le_u32(b, 4) == format_version(),
        file_dim(b) == m.dim,
        file_nrows(b) == m.rows.len(),
        file_meta_len(b) == meta.len(),
        b.subrange(32, meta_end(b)) == meta,
        b.len() == meta_end(b) + 4 * (m.rows.len() * m.dim),
        payload_len(b) == 4 * (m.rows.len() * m.dim),
{
    let n = m.rows.len();
    let dim = m.dim as nat;
    lemma_flatten_len(m.rows, dim);
    lemma_u32_le_len(format_version());
    lemma_u32_le_len(dim);
    lemma_u32_le_len(n);
    lemma_u32_le_len(meta.len());
    assert(b.subrange(0, 4) =~= magic());
    assert(b.subrange(4, 8) =~= u32_le(format_version()));
    lemma_le_u32_at(b, 4, format_version());
    assert(b.subrange(8, 16) =~= u64_le(dim));
    lemma_le_u64_at(b, 8, dim);
    assert(b.subrange(16, 24) =~= u64_le(n));
    lemma_le_u64_at(b, 16, n);
    assert(b.subrange(24, 32) =~= u64_le(meta.len()));
    lemma_le_u64_at(b, 24, meta.len());
    assert(b.subrange(32, meta_end(b)) =~= meta);
    assert(payload_len(b) == 4 * (n * dim)) by (nonlinear_arith)
        requires payload_len(b) == file_nrows(b) * file_dim(b) * 4, file_nrows(b) == n, file_dim(b) == dim;
}

#[verifier::rlimit(30)]
proof fn lemma_payload_of_saved(m: StoreModel, meta: Seq<u8>, b: Seq<u8>)
    requires
        model_wf(m),
        m.rows.len() <= usize::MAX,
        postcard_meta_decode(meta) == Some((m.ids, m.next_id)),
        b == spec_save_bytes(m, meta, true),
        b.len() <= usize::MAX,
    ensures
        !load_panics(b),
        spec_load(b) == Ok::<StoreModel, VestoError>(reloaded(m)),
{
    lemma_header_of_saved(m, meta, b);
    let n = m.rows.len();
    let dim = m.dim as nat;
    lemma_flatten_len(m.rows, dim);
    let flat = flatten(m.rows);
    let payload = word_bytes(flat, true);
    let base = meta_end(b);
    assert(b.subrange(base, b.len() as int) =~= payload) by {
        lemma_u32_le_len(format_version());
        lemma_u32_le_len(dim);
        lemma_u32_le_len(n);
        lemma_u32_le_len(meta.len());
    }
    let rows = file_rows(b, base, n, dim);
    assert forall|p: int| 0 <= p < n implies #[trigger] rows[p] == m.rows[p] by {
        assert forall|j: int| 0 <= j < dim implies #[trigger] rows[p][j] == m.rows[p][j] by {
            lemma_flatten_index(m.rows, dim, p, j);
            let w = p * dim + j;
            let x = flat[w] as nat;
            lemma_u32_le_len(x);
            assert(payload.subrange(4 * w, 4 * w + 4) =~= u32_le(x)) by {
                assert forall|i: int| 0 <= i < 4 implies payload[4 * w + i] == #[trigger] u32_le(x)[i] by {
                    assert((4 * w + i) / 4 == w);
                    assert((4 * w + i) % 4 == i);
                }
            }
            assert(b.subrange(base + 4 * w, base + 4 * w + 4) =~= payload.subrange(4 * w, 4 * w + 4));
            lemma_le_u32_at(b, base + 4 * w, x);
        }
        assert(rows[p] =~= m.rows[p]);
    }
    assert(rows =~= m.rows);
}

/// The postcard encoding of the ids and next id, then the whole file.
fn encode_header(dim: u64, nrows: u64, meta_len: u64, out: &mut Vec<u8>)
    ensures
        final(out)@ == old(out)@ + magic() + u32_le(format_version()) + u64_le(dim as nat)
            + u64_le(nrows as nat) + u64_le(meta_len as nat),
{
    out.push(0x56u8);
    out.push(0x53u8);
    out.push(0x54u8);
    out.push(0x4Fu8);
    push_u32_le(out, 1);
    push_u64_le(out, dim);
    push_u64_le(out, nrows);
    push_u64_le(out, meta_len);
    proof {
        assert(final(out)@ =~= old(out)@ + magic() + u32_le(format_version()) + u64_le(dim as nat)
            + u64_le(nrows as nat) + u64_le(meta_len as nat));
    }
}

fn push_u32_le(out: &mut Vec<u8>, x: u32)
    ensures
        final(out)@ == old(out)@ + u32_le(x as nat),
{
    reveal(u32_le);
    out.push((x % 256) as u8);
    out.push(((x / 256) % 256) as u8);
    out.push(((x / 65536) % 256) as u8);
    out.push(((x / 16777216) % 256) as u8);
    proof {
        assert(final(out)@ =~= old(out)@ + u32_le(x as nat));
    }
}

fn push_u64_le(out: &mut Vec<u8>, x: u64)
    ensures
        final(out)@ == old(out)@ + u64_le(x as nat),
{
    let lo = (x % 4294967296) as u32;
    let hi = (x / 4294967296) as u32;
    push_u32_le(out, lo);
    push_u32_le(out, hi);
    proof {
        assert(final(out)@ =~= old(out)@ + u64_le(x as nat));
    }
}

fn append_bytes(out: &mut Vec<u8>, b: &Vec<u8>)
    ensures
        final(out)@ == old(out)@ + b@,
{
    let mut i: usize = 0;
    while i < b.len()
        invariant
            i <= b.len(),
            out@ == old(out)@ + b@.take(i as int),
        decreases b.len() - i,
    {
        out.push(b[i]);
        i = i + 1;
        proof {
            assert(out@ =~= old(out)@ + b@.take(i as int));
        }
    }
    proof {
        assert(b@.take(i as int) =~= b@);
    }
}

fn read_u32_le(b: &[u8], at: usize) -> (x: u32)
    requires
        at + 4 <= b@.len(),
    ensures
        x == le_u32(b@, at as int),
{
    reveal(le_u32);
    (b[at] as u32) + 256 * (b[at + 1] as u32) + 65536 * (b[at + 2] as u32) + 16777216 * (b[at + 3] as u32)
}

fn read_u64_le(b: &[u8], at: usize) -> (x: u64)
    requires
        at + 8 <= b@.len(),
    ensures
        x == le_u64(b@, at as int),
{
    let len = b.len();
    assert(at + 4 <= len);
    let lo = read_u32_le(b, at) as u64;
    let hi = read_u32_le(b, at + 4) as u64;
    lo + 4294967296 * hi
}

impl VestoStore {
    /// The vectors one after the other.
    fn flat_words(&self) -> (r: Vec<u32>)
        requires
            self.wf(),
        ensures
            r@ == flatten(self@.rows),
    {
        let mut r: Vec<u32> = Vec::new();
        let n = self.rows.len();
        let mut p: usize = 0;
        while p < n
            invariant
                self.wf(),
                n == self@.rows.len(),
                p <= n,
                r@ == flatten(self@.rows.take(p as int)),
            decreases n - p,
        {
            let row = self.row_ref(p);
            let mut j: usize = 0;
            let ghost before = r@;
            while j < row.len()
                invariant
                    j <= row@.len(),
                    r@ == before + row@.take(j as int),
                decreases row.len() - j,
            {
                r.push(row[j]);
                j = j + 1;
                proof {
                    assert(r@ =~= before + row@.take(j as int));
                }
            }
            proof {
                assert(row@.take(j as int) =~= row@);
                assert(self@.rows.take(p + 1).drop_last() =~= self@.rows.take(p as int));
                assert(self@.rows.take(p + 1).last() == self@.rows[p as int]);
            }
            p = p + 1;
        }
        proof {
            assert(self@.rows.take(n as int) =~= self@.rows);
        }
        r
    }

    /// The bytes the store is saved as; saving always succeeds. When the
    /// vectors were written little-endian, reading the bytes back gives the
    /// same store with each id recorded at its last position among the ids
    /// (the same store, for one whose ids are recorded so).
    pub fn save_to_bytes(&self) -> (r: Result<Vec<u8>, VestoError>)
        requires
            self.wf(),
        ensures
            r is Ok,
            r matches Ok(b) ==> {
                let meta = meta_wire(self@.ids, self@.next_id);
                &&& (b@ == spec_save_bytes(self@, meta, true) || b@ == spec_save_bytes(self@, meta, false))
                &&& b@ == spec_save_bytes(self@, meta, true) ==> !load_panics(b@) && spec_load(b@) == Ok::<StoreModel, VestoError>(reloaded(self@))
            },
    {
        let nrows = self.rows.len();
        let dim = self.dim;
        let mut ids: Vec<u64> = Vec::new();
        let mut i: usize = 0;
        while i < self.ids.len()
            invariant
                i <= self.ids@.len(),
                ids@ == self@.ids.take(i as int),
            decreases self.ids.len() - i,
        {
            ids.push(self.ids[i].0);
            i = i + 1;
            proof {
                assert(ids@ =~= self@.ids.take(i as int));
            }
        }
        proof {
            assert(ids@ =~= self@.ids);
        }
        let meta = match encode_meta(&ids, self.next_id) {
            Some(m) => m,
            None => return Err(VestoError::SerializeError),
        };
        let words = self.flat_words();
        let payload = native_word_bytes(words.as_slice());
        let mut out: Vec<u8> = Vec::new();
        encode_header(dim as u64, nrows as u64, meta.len() as u64, &mut out);
        append_bytes(&mut out, &meta);
        append_bytes(&mut out, &payload);
        let out_len = out.len();
        proof {
            assert(out@.len() == out_len);
            let m = self@;
            assert(out@ =~= spec_save_bytes(m, meta@, true) || out@ =~= spec_save_bytes(m, meta@, false));
            if out@ == spec_save_bytes(m, meta@, true) {
                self.lemma_load_of_saved(meta@, out@);
            }
        }
        Ok(out)
    }

    pub(crate) proof fn lemma_load_of_saved(&self, meta: Seq<u8>, b: Seq<u8>)
        requires
            self.wf(),
            postcard_meta_decode(meta) == Some((self@.ids, self@.next_id)),
            b == spec_save_bytes(self@, meta, true),
            b.len() <= usize::MAX,
        ensures
            !load_panics(b),
            spec_load(b) == Ok::<StoreModel, VestoError>(reloaded(self@)),
    {
        let m = self@;
        let n = m.rows.len();
        let dim = m.dim as nat;
        assert(n <= usize::MAX) by {
            assert(self.rows@.len() == self.rows.len());
        }
        lemma_header_of_saved(m, meta, b);
        lemma_payload_of_saved(m, meta, b);
    }

    /// Reads a store back from its bytes. Bad magic gives `BadHeader`, another
    /// version `BadVersion`, a meta postcard cannot read `DeserializeError`;
    /// otherwise the store holds the header's rows and the meta's ids, each id
    /// recorded at its last position among the ids, even where there are more
    /// or fewer ids than rows.
    pub fn load_from_bytes(b: &[u8]) -> (r: Result<VestoStore, VestoError>)
        requires
            !load_panics(b@),
        ensures
            match r {
                Ok(s) => s.wf() && spec_load(b@) == Ok::<StoreModel, VestoError>(s@),
                Err(e) => spec_load(b@) == Err::<StoreModel, VestoError>(e),
            },
    {
        if !(b[0] == 0x56u8 && b[1] == 0x53u8 && b[2] == 0x54u8 && b[3] == 0x4Fu8) {
            proof {
                assert(b@.subrange(0, 4) != magic()) by {
                    if b@.subrange(0, 4) == magic() {
                        assert(b@.subrange(0, 4)[0] == b@[0]);
                        assert(b@.subrange(0, 4)[1] == b@[1]);
                        assert(b@.subrange(0, 4)[2] == b@[2]);
                        assert(b@.subrange(0, 4)[3] == b@[3]);
                    }
                }
            }
            return Err(VestoError::BadHeader);
        }
        proof {
            assert(b@.subrange(0, 4) =~= magic());
        }
        let version = read_u32_le(b, 4);
        if version != 1 {
            return Err(VestoError::BadVersion);
        }
        let dim64 = read_u64_le(b, 8);
        let nrows64 = read_u64_le(b, 16);
        let mlen64 = read_u64_le(b, 24);
        let dim = dim64 as usize;
        let nrows = nrows64 as usize;
        let mlen = mlen64 as usize;
        let end = 32 + mlen;
        let meta_bytes = slice_range(b, 32, end);
        let (ids, next_id) = match decode_meta(meta_bytes) {
            Some(v) => v,
            None => return Err(VestoError::DeserializeError),
        };
        let expected = nrows * dim * 4;
        let blen = b.len();
        assert(expected == 4 * (nrows * dim)) by (nonlinear_arith)
            requires expected == nrows * dim * 4;
        let ghost base = end as int;
        let mut rows: Vec<Vec<u32>> = Vec::new();
        let mut p: usize = 0;
        let mut off: usize = end;
        while p < nrows
            invariant
                p <= nrows,
                nrows == file_nrows(b@),
                dim == file_dim(b@),
                base == end,
                end + expected <= b@.len(),
                expected == 4 * (nrows * dim),
                b@.len() <= usize::MAX,
                off == base + 4 * (p * dim),
                rows@.len() == p,
                forall|q: int| 0 <= q < p ==> (#[trigger] rows@[q])@ == file_rows(b@, base, nrows as nat, dim as nat)[q],
            decreases nrows - p,
        {
            assert((p + 1) * dim <= nrows * dim) by (nonlinear_arith)
                requires p < nrows;
            assert((p + 1) * dim == p * dim + dim) by (nonlinear_arith);
            let mut row: Vec<u32> = Vec::new();
            let mut j: usize = 0;
            while j < dim
                invariant
                    j <= dim,
                    p < nrows,
                    dim == file_dim(b@),
                    (p + 1) * dim <= nrows * dim,
                    end + expected <= b@.len(),
                    expected == 4 * (nrows * dim),
                    base == end,
                    b@.len() <= usize::MAX,
                    off == base + 4 * (p * dim + j),
                    (p + 1) * dim == p * dim + dim,
                    row@.len() == j,
                    forall|k: int| 0 <= k < j ==> #[trigger] row@[k] == le_u32(b@, base + 4 * (p * dim + k)) as u32,
                decreases dim - j,
            {
                let w = read_u32_le(b, off);
                row.push(w);
                off = off + 4;
                j = j + 1;
            }
            proof {
                assert(row@ =~= file_rows(b@, base, nrows as nat, dim as nat)[p as int]);
            }
            rows.push(row);
            p = p + 1;
        }
        let mut entity_ids: Vec<EntityId> = Vec::new();
        let mut id_to_pos: HashMap<u64, usize> = HashMap::new();
        let mut k: usize = 0;
        while k < ids.len()
            invariant
                k <= ids@.len(),
                entity_ids@.map_values(|e: EntityId| e.0) == ids@.take(k as int),
                id_to_pos@ == last_positions(ids@.take(k as int)),
            decreases ids.len() - k,
        {
            entity_ids.push(EntityId(ids[k]));
            id_to_pos.insert(ids[k], k);
            k = k + 1;
            proof {
                assert(entity_ids@.map_values(|e: EntityId| e.0) =~= ids@.take(k as int));
                assert(ids@.take(k as int).drop_last() =~= ids@.take(k - 1));
                assert(id_to_pos@ =~= last_positions(ids@.take(k as int)));
            }
        }
        proof {
            assert(ids@.take(k as int) =~= ids@);
        }
        proof {
            assert forall|q: int| 0 <= q < rows@.len() implies (#[trigger] rows@[q])@.len() == dim by {
                assert(rows@[q]@ == file_rows(b@, base, nrows as nat, dim as nat)[q]);
            }
        }
        let s = VestoStore::from_parts(entity_ids, rows, dim, id_to_pos, next_id);
        proof {
            assert(s@.rows =~= file_rows(b@, base, nrows as nat, dim as nat));
        }
        Ok(s)
    }
}

/// Reads a store back from its bytes, or gives `None` where loading would
/// panic (a truncated file, or a header whose sizes overflow).
pub fn load_checked(b: &[u8]) -> (r: Option<Result<VestoStore, VestoError>>)
    ensures
        r is None <==> load_panics(b@),
        r matches Some(res) ==> match res {
            Ok(s) => s.wf() && spec_load(b@) == Ok::<StoreModel, VestoError>(s@),
            Err(e) => spec_load(b@) == Err::<StoreModel, VestoError>(e),
        },
{
    if load_would_panic(b) {
        None
    } else {
        Some(VestoStore::load_from_bytes(b))
    }
}

/// Whether loading these bytes would panic (a truncated file, or a header
/// whose sizes overflow): callers test this before `load_from_bytes`.
pub fn load_would_panic(b: &[u8]) -> (r: bool)
    ensures
        r == load_panics(b@),
{
    let len = b.len();
    if len < 4 {
        return true;
    }
    let good_magic = b[0] == 0x56u8 && b[1] == 0x53u8 && b[2] == 0x54u8 && b[3] == 0x4Fu8;
    proof {
        if good_magic {
            assert(b@.subrange(0, 4) =~= magic());
        } else {
            assert(b@.subrange(0, 4) != magic()) by {
                if b@.subrange(0, 4) == magic() {
                    assert(b@.subrange(0, 4)[0] == b@[0]);
                    assert(b@.subrange(0, 4)[1] == b@[1]);
                    assert(b@.subrange(0, 4)[2] == b@[2]);
                    assert(b@.subrange(0, 4)[3] == b@[3]);
                }
            }
        }
    }
    if !good_magic {
        return false;
    }
    if len < 8 {
        return true;
    }
    if read_u32_le(b, 4) != 1 {
        return false;
    }
    if len < 32 {
        return true;
    }
    let dim = read_u64_le(b, 8) as usize;
    let nrows = read_u64_le(b, 16) as usize;
    let mlen = read_u64_le(b, 24) as usize;
    if mlen > len - 32 {
        return true;
    }
    let end = 32 + mlen;
    if decode_meta(slice_range(b, 32, end)).is_none() {
        return false;
    }
    match nrows.checked_mul(dim) {
        None => true,
        Some(nd) => match nd.checked_mul(4) {
            None => true,
            Some(expected) => expected > len - end,
        },
    }
}

/// `b[lo..hi]`.
fn slice_range(b: &[u8], lo: usize, hi: usize) -> (r: &[u8])
    requires
        lo <= hi <= b@.len(),
    ensures
        r@ == b@.subrange(lo as int, hi as int),
{
    &b[lo..hi]
}

} // verus!
