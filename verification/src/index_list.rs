//! Membership lists of certificate ids, as the secondary indices keep them.
//!
//! A list holds each id at most once.  Insertion appends; removal locates the
//! id by a linear scan, swaps the located slot with the last slot and
//! truncates by one, so removal is constant-time at the cost of losing
//! insertion order for the tail element that was moved.

use vstd::prelude::*;

verus! {

/// No id occurs twice in the sequence.
pub open spec fn unique_ids(s: Seq<u32>) -> bool {
    forall|i: int, j: int| 0 <= i < j < s.len() ==> s[i] != s[j]
}

/// The position of `id` in `s`; meaningful only when `s` contains `id` at a
/// single position.
pub open spec fn position_of(s: Seq<u32>, id: u32) -> int {
    choose|i: int| 0 <= i < s.len() && s[i] == id
}

/// The sequence after a swap-with-last-then-truncate removal at `pos`.
pub open spec fn swap_pop(s: Seq<u32>, pos: int) -> Seq<u32> {
    s.update(pos, s.last()).drop_last()
}

/// In a duplicate-free sequence, any position holding `id` is the position
/// `position_of` denotes.
pub proof fn lemma_position_of_unique(s: Seq<u32>, id: u32, i: int)
    requires
        unique_ids(s),
        0 <= i < s.len(),
        s[i] == id,
    ensures
        position_of(s, id) == i,
{
    assert(s.contains(id)) by {
        assert(s[i] == id);
    }
    let j = position_of(s, id);
    assert(0 <= j < s.len() && s[j] == id) by {
        assert(0 <= i < s.len() && s[i] == id);
    }
}

/// The members of a sequence after a push: the old members plus the pushed
/// id.
pub proof fn lemma_push_members(s: Seq<u32>, x: u32)
    ensures
        forall|y: u32| #[trigger] s.push(x).contains(y) <==> (s.contains(y) || y == x),
{
    let t = s.push(x);
    assert forall|y: u32| #[trigger] t.contains(y) <==> (s.contains(y) || y == x) by {
        if t.contains(y) {
            let k = choose|k: int| 0 <= k < t.len() && t[k] == y;
            if k < s.len() {
                assert(s.contains(y)) by {
                    assert(s[k] == y);
                }
            }
        }
        if s.contains(y) {
            let k = choose|k: int| 0 <= k < s.len() && s[k] == y;
            assert(t.contains(y)) by {
                assert(t[k] == y);
            }
        }
        if y == x {
            assert(t.contains(y)) by {
                assert(t[s.len() as int] == y);
            }
        }
    }
}

/// Appending a fresh id keeps the list duplicate-free and adds exactly that
/// id to the members.
pub proof fn lemma_push_fresh_id(s: Seq<u32>, x: u32)
    requires
        unique_ids(s),
        !s.contains(x),
    ensures
        unique_ids(s.push(x)),
        forall|y: u32| #[trigger] s.push(x).contains(y) <==> (s.contains(y) || y == x),
{
    let t = s.push(x);
    assert forall|i: int, j: int| 0 <= i < j < t.len() implies t[i] != t[j] by {
        if j == s.len() {
            assert(t[i] == s[i]);
            if s[i] == x {
                assert(s.contains(x));
            }
        }
    }
    assert forall|y: u32| #[trigger] t.contains(y) <==> (s.contains(y) || y == x) by {
        if t.contains(y) {
            let k = choose|k: int| 0 <= k < t.len() && t[k] == y;
            if k < s.len() {
                assert(s[k] == y);
                assert(s.contains(y));
            }
        }
        if s.contains(y) {
            let k = choose|k: int| 0 <= k < s.len() && s[k] == y;
            assert(t[k] == y);
            assert(t.contains(y));
        }
        if y == x {
            assert(t[s.len() as int] == y);
            assert(t.contains(y));
        }
    }
}

/// Locates `id` in the list.
pub fn find_id(ids: &Vec<u32>, id: u32) -> (r: Option<usize>)
    ensures
        match r {
            Some(i) => i < ids@.len() && ids@[i as int] == id,
            None => !ids@.contains(id),
        },
{
    let mut i: usize = 0;
    while i < ids.len()
        invariant
            i <= ids@.len(),
            forall|k: int| 0 <= k < i ==> ids@[k] != id,
        decreases ids@.len() - i,
    {
        if ids[i] == id {
            return Some(i);
        }
        i += 1;
    }
    None
}

/// Removes `id` from the list with swap-pop semantics; a missing id is a
/// no-op.  Every other id keeps its slot except the former last id, which
/// moves into the vacated slot.
pub fn remove_id(ids: &mut Vec<u32>, id: u32) -> (removed: bool)
    requires
        unique_ids(old(ids)@),
    ensures
        removed == old(ids)@.contains(id),
        !removed ==> final(ids)@ == old(ids)@,
        removed ==> final(ids)@ == swap_pop(old(ids)@, position_of(old(ids)@, id)),
        removed ==> final(ids)@.len() == old(ids)@.len() - 1,
        unique_ids(final(ids)@),
        forall|y: u32| #[trigger] final(ids)@.contains(y) <==> (old(ids)@.contains(y) && y != id),
{
    let ghost s = ids@;
    match find_id(ids, id) {
        Some(pos) => {
            proof {
                lemma_position_of_unique(s, id, pos as int);
                assert(s.contains(id)) by {
                    assert(s[pos as int] == id);
                }
            }
            ids.swap_remove(pos);
            proof {
                lemma_swap_pop_members(s, pos as int, id);
            }
            true
        },
        None => false,
    }
}

/// What swap-pop removal at the position of `id` does to membership and
/// uniqueness.
proof fn lemma_swap_pop_members(s: Seq<u32>, pos: int, id: u32)
    requires
        unique_ids(s),
        0 <= pos < s.len(),
        s[pos] == id,
    ensures
        unique_ids(swap_pop(s, pos)),
        forall|y: u32| #[trigger] swap_pop(s, pos).contains(y) <==> (s.contains(y) && y != id),
{
    let t = swap_pop(s, pos);
    let n = s.len() as int;
    assert(t.len() == n - 1);
    assert forall|i: int, j: int| 0 <= i < j < t.len() implies t[i] != t[j] by {
        let a: int = if i == pos { n - 1 } else { i };
        let b: int = if j == pos { n - 1 } else { j };
        assert(t[i] == s[a]);
        assert(t[j] == s[b]);
        assert(a != b);
    }
    assert forall|y: u32| #[trigger] t.contains(y) <==> (s.contains(y) && y != id) by {
        if t.contains(y) {
            let k = choose|k: int| 0 <= k < t.len() && t[k] == y;
            let a: int = if k == pos { n - 1 } else { k };
            assert(t[k] == s[a]);
            assert(s.contains(y)) by {
                assert(s[a] == y);
            }
            assert(a != pos);
            assert(y != id);
        }
        if s.contains(y) && y != id {
            let k = choose|k: int| 0 <= k < s.len() && s[k] == y;
            assert(k != pos);
            if k < n - 1 {
                assert(t[k] == s[k]);
                assert(t.contains(y)) by {
                    assert(t[k] == y);
                }
            } else {
                assert(pos < n - 1);
                assert(t[pos] == s[n - 1]);
                assert(t.contains(y)) by {
                    assert(t[pos] == y);
                }
            }
        }
    }
}

} // verus!
