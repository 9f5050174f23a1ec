use vstd::prelude::*;

use crate::metrics::{score_key, total_key};
use crate::types::EntityId;

verus! {

/// A scored entity: (score bits, id). Lower scores are better.
pub type Scored = (u32, EntityId);

/// Inserts `x` after every element whose score is not above `x`'s (the step
/// of a stable sort by score).
pub open spec fn insert_by_score(s: Seq<Scored>, x: Scored) -> Seq<Scored>
    decreases s.len(),
{
    if s.len() == 0 {
        seq![x]
    } else if total_key(s.last().0) <= total_key(x.0) {
        s.push(x)
    } else {
        insert_by_score(s.drop_last(), x).push(s.last())
    }
}

/// `s` sorted by increasing score in the float total order; entries with
/// equal scores keep their relative order.
pub open spec fn stable_sort_by_score(s: Seq<Scored>) -> Seq<Scored>
    decreases s.len(),
{
    if s.len() == 0 {
        s
    } else {
        insert_by_score(stable_sort_by_score(s.drop_last()), s.last())
    }
}

/// Scores do not decrease along `s`.
pub open spec fn sorted_by_score(s: Seq<Scored>) -> bool {
    forall|i: int, j: int| 0 <= i < j < s.len() ==> total_key(#[trigger] s[i].0) <= total_key(#[trigger] s[j].0)
}

/// The `k` best entries of `s`: its stable sort, cut after `k` entries.
pub open spec fn top_k_by_score(s: Seq<Scored>, k: nat) -> Seq<Scored> {
    let sorted = stable_sort_by_score(s);
    if k < sorted.len() { sorted.take(k as int) } else { sorted }
}

proof fn lemma_insert_by_score_len(s: Seq<Scored>, x: Scored)
    ensures
        insert_by_score(s, x).len() == s.len() + 1,
    decreases s.len(),
{
    if s.len() > 0 && total_key(s.last().0) > total_key(x.0) {
        lemma_insert_by_score_len(s.drop_last(), x);
    }
}

pub proof fn lemma_stable_sort_len(s: Seq<Scored>)
    ensures
        stable_sort_by_score(s).len() == s.len(),
    decreases s.len(),
{
    if s.len() > 0 {
        lemma_stable_sort_len(s.drop_last());
        lemma_insert_by_score_len(stable_sort_by_score(s.drop_last()), s.last());
    }
}

proof fn lemma_insert_by_score_multiset(s: Seq<Scored>, x: Scored)
    ensures
        insert_by_score(s, x).to_multiset() == s.to_multiset().insert(x),
    decreases s.len(),
{
    broadcast use vstd::seq_lib::group_to_multiset_ensures;
    if s.len() == 0 {
        assert(seq![x] == Seq::<Scored>::empty().push(x));
    } else if total_key(s.last().0) <= total_key(x.0) {
    } else {
        lemma_insert_by_score_multiset(s.drop_last(), x);
        assert(s == s.drop_last().push(s.last()));
    }
}

/// Sorting only rearranges: the same entries, each as often as before.
pub proof fn lemma_stable_sort_multiset(s: Seq<Scored>)
    ensures
        stable_sort_by_score(s).to_multiset() == s.to_multiset(),
    decreases s.len(),
{
    broadcast use vstd::seq_lib::group_to_multiset_ensures;
    if s.len() > 0 {
        lemma_stable_sort_multiset(s.drop_last());
        lemma_insert_by_score_multiset(stable_sort_by_score(s.drop_last()), s.last());
        assert(s == s.drop_last().push(s.last()));
    }
}

proof fn lemma_insert_by_score_sorted(s: Seq<Scored>, x: Scored)
    requires
        sorted_by_score(s),
    ensures
        sorted_by_score(insert_by_score(s, x)),
        forall|i: int| 0 <= i < insert_by_score(s, x).len() ==>
            #[trigger] insert_by_score(s, x)[i] == x || s.contains(insert_by_score(s, x)[i]),
    decreases s.len(),
{
    let r = insert_by_score(s, x);
    if s.len() == 0 {
    } else if total_key(s.last().0) <= total_key(x.0) {
        assert forall|i: int| 0 <= i < r.len() implies #[trigger] r[i] == x || s.contains(r[i]) by {
            if i < s.len() {
                assert(r[i] == s[i]);
            }
        }
    } else {
        let t = s.drop_last();
        lemma_insert_by_score_sorted(t, x);
        lemma_insert_by_score_len(t, x);
        let it = insert_by_score(t, x);
        assert forall|i: int| 0 <= i < it.len() implies total_key(#[trigger] it[i].0) <= total_key(s.last().0) by {
            if it[i] != x {
                assert(t.contains(it[i]));
                let k = choose|k: int| 0 <= k < t.len() && t[k] == it[i];
                assert(s[k] == t[k]);
                assert(s[s.len() - 1] == s.last());
            }
        }
        assert forall|i: int| 0 <= i < r.len() implies #[trigger] r[i] == x || s.contains(r[i]) by {
            if i < it.len() {
                assert(r[i] == it[i]);
                if it[i] != x {
                    let k = choose|k: int| 0 <= k < t.len() && t[k] == it[i];
                    assert(s[k] == t[k]);
                }
            } else {
                assert(r[i] == s.last());
                assert(s[s.len() - 1] == s.last());
            }
        }
    }
}

/// The stable sort is ordered by score.
pub proof fn lemma_stable_sort_sorted(s: Seq<Scored>)
    ensures
        sorted_by_score(stable_sort_by_score(s)),
    decreases s.len(),
{
    if s.len() > 0 {
        lemma_stable_sort_sorted(s.drop_last());
        lemma_insert_by_score_sorted(stable_sort_by_score(s.drop_last()), s.last());
    }
}

/// Inserting `x` where every later entry scores above it and no earlier
/// one does.
proof fn lemma_insert_by_score_at(s: Seq<Scored>, x: Scored, j: int)
    requires
        0 <= j <= s.len(),
        forall|k: int| j <= k < s.len() ==> total_key(#[trigger] s[k].0) > total_key(x.0),
        j > 0 ==> total_key(s[j - 1].0) <= total_key(x.0),
    ensures
        insert_by_score(s, x) == s.take(j).push(x) + s.skip(j),
    decreases s.len(),
{
    if s.len() == 0 {
        assert(s.take(j).push(x) + s.skip(j) =~= seq![x]);
    } else if j == s.len() {
        assert(s.take(j) =~= s);
        assert(s.take(j).push(x) + s.skip(j) =~= s.push(x));
    } else {
        let t = s.drop_last();
        assert(total_key(s[s.len() - 1].0) > total_key(x.0));
        assert forall|k: int| j <= k < t.len() implies total_key(#[trigger] t[k].0) > total_key(x.0) by {
            assert(t[k] == s[k]);
        }
        if j > 0 {
            assert(t[j - 1] == s[j - 1]);
        }
        lemma_insert_by_score_at(t, x, j);
        assert(t.take(j).push(x) + t.skip(j) + seq![s.last()] =~= s.take(j).push(x) + s.skip(j));
        assert(insert_by_score(t, x).push(s.last()) =~= insert_by_score(t, x) + seq![s.last()]);
    }
}

/// Puts `x` into the score-ordered vector, after every entry that does not
/// score above it.
pub fn insert_scored(v: &mut Vec<Scored>, x: Scored)
    ensures
        final(v)@ == insert_by_score(old(v)@, x),
{
    let ghost s = v@;
    let n = v.len();
    v.push(x);
    let kx = score_key(x.0);
    let mut j = n;
    while j > 0 && score_key(v[j - 1].0) > kx
        invariant
            0 <= j <= n,
            n == s.len(),
            v@.len() == n + 1,
            forall|k: int| 0 <= k < j ==> #[trigger] v@[k] == s[k],
            forall|k: int| j < k <= n ==> #[trigger] v@[k] == s[k - 1],
            forall|k: int| j <= k < n ==> total_key(#[trigger] s[k].0) > total_key(x.0),
            kx == total_key(x.0),
        decreases j,
    {
        let prev = v[j - 1];
        v.set(j, prev);
        j = j - 1;
    }
    v.set(j, x);
    proof {
        if j > 0 {
            assert(v@[j - 1] == s[j - 1]);
        }
        lemma_insert_by_score_at(s, x, j as int);
        assert(v@ =~= s.take(j as int).push(x) + s.skip(j as int));
    }
}

/// Sorts by increasing score, keeping the order of equal scores.
pub fn sort_by_score(items: &Vec<Scored>) -> (r: Vec<Scored>)
    ensures
        r@ == stable_sort_by_score(items@),
{
    let mut r: Vec<Scored> = Vec::new();
    let mut i: usize = 0;
    while i < items.len()
        invariant
            i <= items.len(),
            r@ == stable_sort_by_score(items@.take(i as int)),
        decreases items.len() - i,
    {
        proof {
            assert(items@.take(i + 1).drop_last() =~= items@.take(i as int));
        }
        insert_scored(&mut r, items[i]);
        i = i + 1;
    }
    proof {
        assert(items@.take(i as int) =~= items@);
    }
    r
}

/// The `top_k` best scored entries, best first; ties keep their order.
pub fn rank_top_k(items: &Vec<Scored>, top_k: usize) -> (r: Vec<Scored>)
    ensures
        r@ == top_k_by_score(items@, top_k as nat),
{
    let mut sorted = sort_by_score(items);
    proof {
        lemma_stable_sort_len(items@);
    }
    if top_k < sorted.len() {
        sorted.truncate(top_k);
    }
    sorted
}

/// The best `k` are at most `k`, sorted, and each one of the entries.
pub proof fn lemma_top_k_props(s: Seq<Scored>, k: nat)
    ensures
        top_k_by_score(s, k).len() <= k,
        top_k_by_score(s, k).len() <= s.len(),
        sorted_by_score(top_k_by_score(s, k)),
        forall|i: int| 0 <= i < top_k_by_score(s, k).len() ==> s.contains(#[trigger] top_k_by_score(s, k)[i]),
{
    let sorted = stable_sort_by_score(s);
    lemma_stable_sort_len(s);
    lemma_stable_sort_sorted(s);
    lemma_stable_sort_multiset(s);
    let t = top_k_by_score(s, k);
    assert forall|i: int| 0 <= i < t.len() implies s.contains(#[trigger] t[i]) by {
        assert(t[i] == sorted[i]);
        assert(sorted.to_multiset().count(sorted[i]) > 0) by {
            vstd::seq_lib::lemma_seq_contains_after_push(sorted, sorted[i], sorted[i]);
            broadcast use vstd::seq_lib::group_to_multiset_ensures;
            assert(sorted.contains(sorted[i]));
        }
        broadcast use vstd::seq_lib::group_to_multiset_ensures;
    }
}

} // verus!
