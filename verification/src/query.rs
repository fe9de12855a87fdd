//! The read-only query layer: stable sorting by a numeric key, and
//! pagination over a candidate list.
//!
//! Sorting is specified by [`stable_sort`], an insertion sort at the
//! specification level: elements are taken left to right and each is placed
//! behind every already-placed element whose key may stand at or before its
//! own, so elements with equal keys keep their original relative order.

use vstd::prelude::*;
use vstd::seq_lib::group_to_multiset_ensures;

verus! {

broadcast use group_to_multiset_ensures;

/// How a farmer's certificate listing is keyed for sorting.
#[derive(Clone, Debug, Eq, PartialEq)]
pub enum SortBy {
    /// Rank by the certificate's tons of CO2e.
    Co2eTons,
    /// Rank by the certificate's unburned hectares.
    Hectares,
    /// Rank by the certificate id itself.
    CertificateId,
}

/// A certificate id paired with the numeric key it is ranked by.
#[derive(Clone, Copy, Debug, PartialEq, Eq, Structural)]
pub struct RankedId {
    pub id: u32,
    pub key: u128,
}

/// Whether key `a` may stand at or before key `b` under the chosen direction.
pub open spec fn key_le(a: u128, b: u128, descending: bool) -> bool {
    if descending {
        a >= b
    } else {
        a <= b
    }
}

/// Keys run in the chosen direction.
pub open spec fn sorted_by_key(s: Seq<RankedId>, descending: bool) -> bool {
    forall|i: int, j: int| 0 <= i <= j < s.len() ==> key_le(s[i].key, s[j].key, descending)
}

/// `x` placed behind every element of `s` whose key may stand at or before
/// `x`'s own key; an equal key is never overtaken.
pub open spec fn insert_ranked(s: Seq<RankedId>, x: RankedId, descending: bool) -> Seq<RankedId>
    decreases s.len(),
{
    if s.len() == 0 {
        seq![x]
    } else if key_le(s[0].key, x.key, descending) {
        seq![s[0]] + insert_ranked(s.drop_first(), x, descending)
    } else {
        seq![x] + s
    }
}

/// The stable sort of `s`: elements taken left to right, each inserted with
/// [`insert_ranked`], so ties are broken by original relative order.
pub open spec fn stable_sort(s: Seq<RankedId>, descending: bool) -> Seq<RankedId>
    decreases s.len(),
{
    if s.len() == 0 {
        Seq::empty()
    } else {
        insert_ranked(stable_sort(s.drop_last(), descending), s.last(), descending)
    }
}

/// Inserting at any single position adds exactly that element to the
/// multiset of the sequence.
proof fn lemma_seq_insert_multiset(s: Seq<RankedId>, i: int, x: RankedId)
    requires
        0 <= i <= s.len(),
    ensures
        s.insert(i, x).to_multiset() == s.to_multiset().insert(x),
{
    let t = s.insert(i, x);
    assert(t.remove(i) =~= s);
    assert(t[i] == x);
    assert(t.contains(x)) by {
        assert(t[i] == x);
    }
    assert(t.to_multiset().count(x) > 0);
    assert(t.remove(i).to_multiset() == t.to_multiset().remove(t[i]));
    assert(t.to_multiset() =~= s.to_multiset().insert(x));
}

/// [`insert_ranked`] is insertion: it adds exactly `x` to the multiset.
pub proof fn lemma_insert_ranked_multiset(s: Seq<RankedId>, x: RankedId, descending: bool)
    ensures
        insert_ranked(s, x, descending).to_multiset() == s.to_multiset().insert(x),
    decreases s.len(),
{
    let t = insert_ranked(s, x, descending);
    if s.len() == 0 {
        assert(t =~= Seq::empty().insert(0, x));
        lemma_seq_insert_multiset(Seq::empty(), 0, x);
    } else if key_le(s[0].key, x.key, descending) {
        let u = insert_ranked(s.drop_first(), x, descending);
        lemma_insert_ranked_multiset(s.drop_first(), x, descending);
        assert(t =~= u.insert(0, s[0]));
        lemma_seq_insert_multiset(u, 0, s[0]);
        assert(s =~= s.drop_first().insert(0, s[0]));
        lemma_seq_insert_multiset(s.drop_first(), 0, s[0]);
        assert(t.to_multiset() =~= s.to_multiset().insert(x));
    } else {
        assert(t =~= s.insert(0, x));
        lemma_seq_insert_multiset(s, 0, x);
    }
}

/// The members of [`insert_ranked`] are the members of `s` plus `x`.
pub proof fn lemma_insert_ranked_contains(s: Seq<RankedId>, x: RankedId, descending: bool)
    ensures
        forall|y: RankedId|
            #[trigger] insert_ranked(s, x, descending).contains(y) <==> (s.contains(y) || y == x),
{
    let t = insert_ranked(s, x, descending);
    lemma_insert_ranked_multiset(s, x, descending);
    assert forall|y: RankedId| #[trigger] t.contains(y) <==> (s.contains(y) || y == x) by {
        assert(t.contains(y) <==> t.to_multiset().count(y) > 0);
        assert(s.contains(y) <==> s.to_multiset().count(y) > 0);
    }
}

/// Inserting into a sorted sequence keeps it sorted.
pub proof fn lemma_insert_ranked_sorted(s: Seq<RankedId>, x: RankedId, descending: bool)
    requires
        sorted_by_key(s, descending),
    ensures
        sorted_by_key(insert_ranked(s, x, descending), descending),
    decreases s.len(),
{
    let t = insert_ranked(s, x, descending);
    if s.len() == 0 {
    } else if key_le(s[0].key, x.key, descending) {
        let rest = s.drop_first();
        let u = insert_ranked(rest, x, descending);
        assert(forall|i: int, j: int|
            0 <= i <= j < rest.len() ==> key_le(rest[i].key, rest[j].key, descending));
        lemma_insert_ranked_sorted(rest, x, descending);
        lemma_insert_ranked_contains(rest, x, descending);
        assert forall|i: int, j: int| 0 <= i <= j < t.len() implies
            key_le(t[i].key, t[j].key, descending) by {
            if i == 0 && j > 0 {
                assert(t[j] == u[j - 1]);
                assert(u.contains(u[j - 1])) by {
                    assert(u[j - 1] == u[j - 1]);
                }
                if u[j - 1] == x {
                    assert(key_le(t[0].key, t[j].key, descending));
                } else {
                    assert(rest.contains(u[j - 1]));
                    let m = choose|m: int| 0 <= m < rest.len() && rest[m] == u[j - 1];
                    assert(s[m + 1] == u[j - 1]);
                    assert(key_le(s[0].key, s[m + 1].key, descending));
                }
            } else if i > 0 {
                assert(t[i] == u[i - 1]);
                assert(t[j] == u[j - 1]);
                assert(key_le(u[i - 1].key, u[j - 1].key, descending));
            }
        }
    } else {
        assert forall|i: int, j: int| 0 <= i <= j < t.len() implies
            key_le(t[i].key, t[j].key, descending) by {
            if i == 0 && j > 0 {
                assert(t[j] == s[j - 1]);
                assert(key_le(s[0].key, s[j - 1].key, descending));
            }
        }
    }
}

/// The stable sort is a permutation of its input.
pub proof fn lemma_stable_sort_multiset(s: Seq<RankedId>, descending: bool)
    ensures
        stable_sort(s, descending).to_multiset() == s.to_multiset(),
    decreases s.len(),
{
    if s.len() == 0 {
    } else {
        let front = s.drop_last();
        lemma_stable_sort_multiset(front, descending);
        lemma_insert_ranked_multiset(stable_sort(front, descending), s.last(), descending);
        assert(front.push(s.last()) =~= s);
        assert(front.push(s.last()).to_multiset() == front.to_multiset().insert(s.last()));
    }
}

/// The stable sort is sorted in the chosen direction.
pub proof fn lemma_stable_sort_sorted(s: Seq<RankedId>, descending: bool)
    ensures
        sorted_by_key(stable_sort(s, descending), descending),
    decreases s.len(),
{
    if s.len() == 0 {
    } else {
        lemma_stable_sort_sorted(s.drop_last(), descending);
        lemma_insert_ranked_sorted(stable_sort(s.drop_last(), descending), s.last(), descending);
    }
}

/// The position of an element in a duplicate-free run.
pub open spec fn position_in(s: Seq<RankedId>, x: RankedId) -> int {
    choose|i: int| 0 <= i < s.len() && s[i] == x
}

/// In a duplicate-free run, any position holding `x` is the position
/// `position_in` denotes.
pub proof fn lemma_position_in_unique(s: Seq<RankedId>, x: RankedId, i: int)
    requires
        s.no_duplicates(),
        0 <= i < s.len(),
        s[i] == x,
    ensures
        position_in(s, x) == i,
{
    assert(exists|k: int| 0 <= k < s.len() && s[k] == x) by {
        assert(s[i] == x);
    }
    let j = position_in(s, x);
    assert(0 <= j < s.len() && s[j] == x) by {
        assert(s[i] == x);
    }
}

/// Where [`insert_ranked`] places the new element: after the longest
/// prefix whose keys may all stand at or before the new key.
pub open spec fn insert_pos(s: Seq<RankedId>, x: RankedId, descending: bool) -> int
    decreases s.len(),
{
    if s.len() == 0 {
        0
    } else if key_le(s[0].key, x.key, descending) {
        1 + insert_pos(s.drop_first(), x, descending)
    } else {
        0
    }
}

/// [`insert_ranked`] is insertion at [`insert_pos`]: every earlier key may
/// stand at or before the new key, and the key at the slot itself may not.
pub proof fn lemma_insert_pos_properties(s: Seq<RankedId>, x: RankedId, descending: bool)
    ensures
        0 <= insert_pos(s, x, descending) <= s.len(),
        forall|k: int|
            0 <= k < insert_pos(s, x, descending) ==> key_le(s[k].key, x.key, descending),
        insert_pos(s, x, descending) < s.len() ==> !key_le(
            s[insert_pos(s, x, descending)].key,
            x.key,
            descending,
        ),
        insert_ranked(s, x, descending) == s.insert(insert_pos(s, x, descending), x),
    decreases s.len(),
{
    let jp = insert_pos(s, x, descending);
    if s.len() == 0 {
        lemma_insert_ranked_at(s, x, descending, 0);
    } else if key_le(s[0].key, x.key, descending) {
        lemma_insert_pos_properties(s.drop_first(), x, descending);
        assert forall|k: int| 0 <= k < jp implies key_le(s[k].key, x.key, descending) by {
            if k >= 1 {
                assert(s.drop_first()[k - 1] == s[k]);
            }
        }
        if jp < s.len() {
            assert(s.drop_first()[jp - 1] == s[jp]);
        }
        lemma_insert_ranked_at(s, x, descending, jp);
    } else {
        lemma_insert_ranked_at(s, x, descending, 0);
    }
}

/// The stable sort breaks ties by listing order: of two equally-keyed
/// elements of the output, the one listed earlier in the input stays
/// earlier.
pub proof fn lemma_stable_sort_stable(s: Seq<RankedId>, descending: bool)
    requires
        s.no_duplicates(),
    ensures
        forall|i: int, j: int|
            0 <= i < j < stable_sort(s, descending).len() && (#[trigger] stable_sort(
                s,
                descending,
            )[i]).key == (#[trigger] stable_sort(s, descending)[j]).key ==> position_in(
                s,
                stable_sort(s, descending)[i],
            ) < position_in(s, stable_sort(s, descending)[j]),
    decreases s.len(),
{
    let out = stable_sort(s, descending);
    if s.len() == 0 {
    } else {
        let front = s.drop_last();
        let x = s.last();
        let t = stable_sort(front, descending);
        let n = s.len() as int;
        assert(front.no_duplicates()) by {
            assert forall|a: int, b: int|
                0 <= a < front.len() && 0 <= b < front.len() && a != b implies front[a]
                != front[b] by {
                assert(s[a] != s[b]);
            }
        }
        lemma_stable_sort_stable(front, descending);
        lemma_stable_sort_sorted(front, descending);
        lemma_stable_sort_multiset(front, descending);
        lemma_stable_sort_len(front, descending);
        lemma_insert_pos_properties(t, x, descending);
        let jp = insert_pos(t, x, descending);
        assert(out == t.insert(jp, x));
        assert(!front.contains(x)) by {
            if front.contains(x) {
                let k = choose|k: int| 0 <= k < front.len() && front[k] == x;
                assert(s[k] == x);
                assert(s[n - 1] == x);
            }
        }
        assert forall|el: RankedId| #[trigger] t.contains(el) implies front.contains(el) by {
            assert(t.to_multiset().count(el) > 0);
            assert(front.to_multiset().count(el) > 0);
        }
        assert(s =~= front.push(x));
        assert forall|el: RankedId| #[trigger] t.contains(el) implies position_in(s, el)
            == position_in(front, el) && 0 <= position_in(front, el) < n - 1 by {
            assert(front.contains(el));
            let k = choose|k: int| 0 <= k < front.len() && front[k] == el;
            lemma_position_in_unique(front, el, k);
            assert(s[k] == el);
            lemma_position_in_unique(s, el, k);
        }
        lemma_position_in_unique(s, x, n - 1);
        assert forall|i: int, j: int|
            0 <= i < j < out.len() && (#[trigger] out[i]).key == (#[trigger] out[j]).key implies
            position_in(s, out[i]) < position_in(s, out[j]) by {
            if i == jp {
                assert(out[i] == x);
                assert(out[j] == t[j - 1]);
                assert(jp <= j - 1 < t.len());
                assert(key_le(t[jp].key, t[j - 1].key, descending));
                assert(!key_le(t[jp].key, x.key, descending));
                assert(false);
            } else if j == jp {
                assert(out[j] == x);
                let i2: int = i;
                assert(out[i] == t[i2]);
                assert(t.contains(t[i2])) by {
                    assert(t[i2] == t[i2]);
                }
                assert(position_in(s, out[i]) < n - 1);
                assert(position_in(s, x) == n - 1);
            } else {
                let i2: int = if i < jp {
                    i
                } else {
                    i - 1
                };
                let j2: int = if j < jp {
                    j
                } else {
                    j - 1
                };
                assert(out[i] == t[i2]);
                assert(out[j] == t[j2]);
                assert(0 <= i2 < j2 < t.len());
                assert(t.contains(t[i2])) by {
                    assert(t[i2] == t[i2]);
                }
                assert(t.contains(t[j2])) by {
                    assert(t[j2] == t[j2]);
                }
                assert(position_in(front, t[i2]) < position_in(front, t[j2]));
            }
        }
    }
}

/// Decides [`key_le`] executably.
fn ranked_le(a: u128, b: u128, descending: bool) -> (r: bool)
    ensures
        r == key_le(a, b, descending),
{
    if descending {
        a >= b
    } else {
        a <= b
    }
}

/// The first slot whose key may not stand at or before `x`'s key: where
/// [`insert_ranked`] places `x`.
fn insertion_point(out: &Vec<RankedId>, x: RankedId, descending: bool) -> (j: usize)
    ensures
        j <= out@.len(),
        forall|k: int| 0 <= k < j ==> key_le(out@[k].key, x.key, descending),
        j < out@.len() ==> !key_le(out@[j as int].key, x.key, descending),
{
    let mut j: usize = 0;
    while j < out.len()
        invariant
            j <= out@.len(),
            forall|k: int| 0 <= k < j ==> key_le(out@[k].key, x.key, descending),
        decreases out@.len() - j,
    {
        if !ranked_le(out[j].key, x.key, descending) {
            return j;
        }
        j += 1;
    }
    j
}

/// Where the first slot that may not precede `x` is `j`, [`insert_ranked`]
/// is insertion at `j`.
proof fn lemma_insert_ranked_at(s: Seq<RankedId>, x: RankedId, descending: bool, j: int)
    requires
        0 <= j <= s.len(),
        forall|k: int| 0 <= k < j ==> key_le(s[k].key, x.key, descending),
        j < s.len() ==> !key_le(s[j].key, x.key, descending),
    ensures
        insert_ranked(s, x, descending) == s.insert(j, x),
    decreases s.len(),
{
    if s.len() == 0 {
        assert(insert_ranked(s, x, descending) =~= s.insert(0, x));
    } else if key_le(s[0].key, x.key, descending) {
        assert(j >= 1);
        let rest = s.drop_first();
        lemma_insert_ranked_at(rest, x, descending, j - 1);
        assert(seq![s[0]] + rest.insert(j - 1, x) =~= s.insert(j, x));
    } else {
        assert(j == 0) by {
            if j > 0 {
                assert(key_le(s[0].key, x.key, descending));
            }
        }
        assert(seq![x] + s =~= s.insert(0, x));
    }
}

/// Sorts the ranked ids stably by key in the chosen direction.
pub fn sort_ranked(items: &Vec<RankedId>, descending: bool) -> (r: Vec<RankedId>)
    ensures
        r@ == stable_sort(items@, descending),
{
    let mut out: Vec<RankedId> = Vec::new();
    let mut i: usize = 0;
    while i < items.len()
        invariant
            i <= items@.len(),
            out@ == stable_sort(items@.take(i as int), descending),
        decreases items@.len() - i,
    {
        let x = items[i];
        let j = insertion_point(&out, x, descending);
        let ghost prev = out@;
        out.insert(j, x);
        proof {
            lemma_insert_ranked_at(prev, x, descending, j as int);
            let step = items@.take(i as int + 1);
            assert(step.drop_last() =~= items@.take(i as int));
            assert(step.last() == items@[i as int]);
            assert(step.len() != 0);
        }
        i += 1;
    }
    proof {
        assert(items@.take(items@.len() as int) =~= items@);
    }
    out
}

/// The ids of a ranked run, in its order.
pub open spec fn ids_of(s: Seq<RankedId>) -> Seq<u32> {
    s.map_values(|x: RankedId| x.id)
}

/// The stable sort keeps the length.
pub proof fn lemma_stable_sort_len(s: Seq<RankedId>, descending: bool)
    ensures
        stable_sort(s, descending).len() == s.len(),
{
    lemma_stable_sort_multiset(s, descending);
    assert(stable_sort(s, descending).to_multiset().len() == stable_sort(s, descending).len());
    assert(s.to_multiset().len() == s.len());
}

/// The page of `s` that starts at `offset` and holds at most `limit`
/// elements; empty when `offset` is at or past the end.
pub open spec fn page_of(s: Seq<u32>, offset: u32, limit: u32) -> Seq<u32> {
    if offset as int >= s.len() {
        Seq::empty()
    } else if offset as int + limit as int <= s.len() {
        s.subrange(offset as int, offset as int + limit as int)
    } else {
        s.subrange(offset as int, s.len() as int)
    }
}

/// Returns `(page, total)`: the slice of `ids` that starts at `offset` with
/// at most `limit` elements, and the size of `ids` before pagination.  An
/// offset at or past the end yields an empty page and the true total; a
/// limit past the end is clamped.  Neither is an error.
pub fn paginate_ids(ids: &Vec<u32>, offset: u32, limit: u32) -> (r: (Vec<u32>, u32))
    requires
        ids@.len() <= u32::MAX,
    ensures
        r.0@ == page_of(ids@, offset, limit),
        r.1 == ids@.len(),
{
    let total: u32 = ids.len() as u32;
    if offset >= total {
        return (Vec::new(), total);
    }
    let remaining: u32 = total - offset;
    let count: u32 = if limit < remaining {
        limit
    } else {
        remaining
    };
    let end: u32 = offset + count;
    let mut page: Vec<u32> = Vec::new();
    let mut i: u32 = offset;
    while i < end
        invariant
            offset <= i <= end <= ids@.len(),
            page@ == ids@.subrange(offset as int, i as int),
        decreases end - i,
    {
        page.push(ids[i as usize]);
        proof {
            assert(ids@.subrange(offset as int, i as int + 1) =~= ids@.subrange(
                offset as int,
                i as int,
            ).push(ids@[i as int]));
        }
        i += 1;
    }
    (page, total)
}

} // verus!
