//! Filling an order from a row of sellers.
//!
//! The sellers are visited once, in a circle: from a starting position to the
//! end of the row, then from the beginning of the row up to the starting
//! position. Each sells what it has on offer until the order is full. So a
//! seller's part is settled by what the sellers before it in the circle had
//! on offer, and what the buyer gets does not depend on where the circle
//! starts.

use vstd::prelude::*;
use crate::tally::{lemma_tally_concat, non_negative, tally};

verus! {

/// The lesser of `a` and `b`.
pub open spec fn min(a: int, b: int) -> int {
    if a <= b {
        a
    } else {
        b
    }
}

/// The position that is visited `k` steps after position `offset`, in a row
/// of `n`.
pub open spec fn visited(n: int, offset: int, k: int) -> int {
    if offset + k < n {
        offset + k
    } else {
        offset + k - n
    }
}

/// After how many steps a circle that starts at `offset` comes to position
/// `i`, in a row of `n`.
pub open spec fn turn(n: int, offset: int, i: int) -> int {
    if i >= offset {
        i - offset
    } else {
        i + n - offset
    }
}

/// What the first `k` sellers of the circle have on offer together.
pub open spec fn scanned<T>(s: Seq<T>, offer: spec_fn(T) -> int, offset: int, k: int) -> int
    decreases k,
{
    if k <= 0 {
        0
    } else {
        scanned(s, offer, offset, k - 1) + offer(s[visited(s.len() as int, offset, k - 1)])
    }
}

/// What the seller at position `i` sells to an order for `target` units: its
/// offer, or what the sellers before it have left of the order, if that is
/// less.
pub open spec fn share<T>(
    s: Seq<T>,
    offer: spec_fn(T) -> int,
    offset: int,
    target: int,
    i: int,
) -> int {
    let before = scanned(s, offer, offset, turn(s.len() as int, offset, i));
    if target <= before {
        0
    } else {
        min(offer(s[i]), target - before)
    }
}

/// What an order for `target` units gets from the row: all of it, or all
/// that is on offer, if that is less.
pub open spec fn filled<T>(s: Seq<T>, offer: spec_fn(T) -> int, target: int) -> int {
    min(target, tally(s, offer))
}

/// Steps and positions of a circle correspond one to one.
pub proof fn lemma_circle(n: int, offset: int)
    requires
        0 <= offset < n,
    ensures
        forall|k: int|
            0 <= k < n ==> 0 <= #[trigger] visited(n, offset, k) < n && turn(
                n,
                offset,
                visited(n, offset, k),
            ) == k,
        forall|i: int|
            0 <= i < n ==> 0 <= #[trigger] turn(n, offset, i) < n && visited(
                n,
                offset,
                turn(n, offset, i),
            ) == i,
{
}

/// The first `k` sellers of the circle are a stretch of the row up to its
/// end, and then a stretch from its beginning.
proof fn lemma_scanned_stretches<T>(s: Seq<T>, offer: spec_fn(T) -> int, offset: int, k: int)
    requires
        0 <= offset < s.len(),
        0 <= k <= s.len(),
    ensures
        scanned(s, offer, offset, k) == if offset + k <= s.len() {
            tally(s.subrange(offset, offset + k), offer)
        } else {
            tally(s.subrange(offset, s.len() as int), offer) + tally(
                s.subrange(0, offset + k - s.len()),
                offer,
            )
        },
    decreases k,
{
    let n = s.len() as int;
    if k == 0 {
        assert(s.subrange(offset, offset).len() == 0);
    } else {
        lemma_scanned_stretches(s, offer, offset, k - 1);
        let at = visited(n, offset, k - 1);
        if offset + k <= n {
            let stretch = s.subrange(offset, offset + k);
            assert(stretch.drop_last() =~= s.subrange(offset, offset + k - 1));
            assert(stretch.last() == s[at]);
        } else {
            let stretch = s.subrange(0, offset + k - n);
            assert(stretch.drop_last() =~= s.subrange(0, offset + k - 1 - n));
            assert(stretch.last() == s[at]);
            if offset + k - 1 == n {
                assert(stretch.drop_last().len() == 0);
            }
        }
    }
}

/// A full circle has seen all that the row has on offer, wherever it started.
pub proof fn lemma_scanned_all<T>(s: Seq<T>, offer: spec_fn(T) -> int, offset: int)
    requires
        0 <= offset < s.len(),
    ensures
        scanned(s, offer, offset, s.len() as int) == tally(s, offer),
{
    let n = s.len() as int;
    lemma_scanned_stretches(s, offer, offset, n);
    lemma_tally_concat(s.subrange(0, offset), s.subrange(offset, n), offer);
    assert(s.subrange(0, offset) + s.subrange(offset, n) =~= s);
}

/// Where no offer is negative, a longer stretch of the circle has seen no
/// less.
pub proof fn lemma_scanned_grows<T>(
    s: Seq<T>,
    offer: spec_fn(T) -> int,
    offset: int,
    j: int,
    k: int,
)
    requires
        0 <= offset < s.len(),
        0 <= j <= k <= s.len(),
        non_negative(s, offer),
    ensures
        0 <= scanned(s, offer, offset, j) <= scanned(s, offer, offset, k),
    decreases k,
{
    if j < k {
        lemma_scanned_grows(s, offer, offset, j, k - 1);
        lemma_circle(s.len() as int, offset);
        let at = visited(s.len() as int, offset, k - 1);
        assert(offer(s[at]) >= 0);
    } else if k > 0 {
        lemma_scanned_grows(s, offer, offset, j - 1, k - 1);
        lemma_circle(s.len() as int, offset);
        let at = visited(s.len() as int, offset, k - 1);
        assert(offer(s[at]) >= 0);
    }
}

/// No seller sells more than it has on offer or than was asked for, and none
/// sells less than nothing.
pub proof fn lemma_share_bounds<T>(
    s: Seq<T>,
    offer: spec_fn(T) -> int,
    offset: int,
    target: int,
    i: int,
)
    requires
        0 <= offset < s.len(),
        0 <= i < s.len(),
        0 <= target,
        non_negative(s, offer),
    ensures
        0 <= share(s, offer, offset, target, i) <= offer(s[i]),
        share(s, offer, offset, target, i) <= target,
{
    lemma_circle(s.len() as int, offset);
    lemma_scanned_grows(s, offer, offset, 0, turn(s.len() as int, offset, i));
    assert(offer(s[i]) >= 0);
}

} // verus!
