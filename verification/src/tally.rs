//! Totals over a sequence of agents, and what the ways of changing a
//! sequence do to them.

use vstd::prelude::*;
use vstd::seq_lib::*;

verus! {

/// The sum of `f` over the items of `s`.
pub open spec fn tally<T>(s: Seq<T>, f: spec_fn(T) -> int) -> int
    decreases s.len(),
{
    if s.len() == 0 {
        0
    } else {
        tally(s.drop_last(), f) + f(s.last())
    }
}

/// A number as it stands.
pub open spec fn amount_of() -> spec_fn(i32) -> int {
    |amount: i32| amount as int
}

/// The sum of the numbers of `s`.
pub open spec fn sum(s: Seq<i32>) -> int {
    tally(s, amount_of())
}

/// `f` is nowhere negative on `s`.
pub open spec fn non_negative<T>(s: Seq<T>, f: spec_fn(T) -> int) -> bool {
    forall|i: int| 0 <= i < s.len() ==> f(#[trigger] s[i]) >= 0
}

/// An item added at the end adds its own value.
pub proof fn lemma_tally_push<T>(s: Seq<T>, f: spec_fn(T) -> int, x: T)
    ensures
        tally(s.push(x), f) == tally(s, f) + f(x),
{
    assert(s.push(x).drop_last() =~= s);
}

/// The total of two sequences put together is the sum of their totals.
pub proof fn lemma_tally_concat<T>(a: Seq<T>, b: Seq<T>, f: spec_fn(T) -> int)
    ensures
        tally(a + b, f) == tally(a, f) + tally(b, f),
    decreases b.len(),
{
    if b.len() == 0 {
        assert(a + b =~= a);
    } else {
        assert((a + b).drop_last() =~= a + b.drop_last());
        lemma_tally_concat(a, b.drop_last(), f);
    }
}

/// The first `k + 1` items total what the first `k` do, and item `k`.
pub proof fn lemma_tally_take<T>(s: Seq<T>, f: spec_fn(T) -> int, k: int)
    requires
        0 <= k < s.len(),
    ensures
        tally(s.take(k + 1), f) == tally(s.take(k), f) + f(s[k]),
{
    assert(s.take(k + 1).drop_last() =~= s.take(k));
}

/// Replacing an item changes the total by the difference of the two values.
pub proof fn lemma_tally_update<T>(s: Seq<T>, f: spec_fn(T) -> int, i: int, x: T)
    requires
        0 <= i < s.len(),
    ensures
        tally(s.update(i, x), f) == tally(s, f) - f(s[i]) + f(x),
    decreases s.len(),
{
    if i == s.len() - 1 {
        assert(s.update(i, x).drop_last() =~= s.drop_last());
    } else {
        assert(s.update(i, x).drop_last() =~= s.drop_last().update(i, x));
        lemma_tally_update(s.drop_last(), f, i, x);
    }
}

/// Taking an item out takes its value out of the total.
pub proof fn lemma_tally_remove<T>(s: Seq<T>, f: spec_fn(T) -> int, i: int)
    requires
        0 <= i < s.len(),
    ensures
        tally(s.remove(i), f) == tally(s, f) - f(s[i]),
    decreases s.len(),
{
    if i == s.len() - 1 {
        assert(s.remove(i) =~= s.drop_last());
    } else {
        assert(s.remove(i).drop_last() =~= s.drop_last().remove(i));
        assert(s.remove(i).last() == s.last());
        lemma_tally_remove(s.drop_last(), f, i);
    }
}

/// Filling a gap with the last item takes the value of the item that was in
/// the gap out of the total.
pub proof fn lemma_tally_swap_remove<T>(s: Seq<T>, f: spec_fn(T) -> int, i: int)
    requires
        0 <= i < s.len(),
    ensures
        tally(s.update(i, s.last()).drop_last(), f) == tally(s, f) - f(s[i]),
{
    lemma_tally_update(s, f, i, s.last());
}

/// Where no value is negative, no total is, and no item's value is more than
/// the total.
pub proof fn lemma_tally_bounds<T>(s: Seq<T>, f: spec_fn(T) -> int)
    requires
        non_negative(s, f),
    ensures
        tally(s, f) >= 0,
        forall|i: int| 0 <= i < s.len() ==> f(#[trigger] s[i]) <= tally(s, f),
    decreases s.len(),
{
    if s.len() > 0 {
        let front = s.drop_last();
        assert forall|i: int| 0 <= i < front.len() implies f(#[trigger] front[i]) >= 0 by {
            assert(front[i] == s[i]);
        }
        lemma_tally_bounds(front, f);
        assert(f(s[s.len() - 1]) >= 0);
        assert forall|i: int| 0 <= i < s.len() implies f(#[trigger] s[i]) <= tally(s, f) by {
            if i < s.len() - 1 {
                assert(front[i] == s[i]);
            }
        }
    }
}

/// Where no value is negative, the first `k` items total no more than all.
pub proof fn lemma_tally_take_le<T>(s: Seq<T>, f: spec_fn(T) -> int, k: int)
    requires
        0 <= k <= s.len(),
        non_negative(s, f),
    ensures
        0 <= tally(s.take(k), f) <= tally(s, f),
{
    let front = s.take(k);
    let back = s.skip(k);
    assert(front + back =~= s);
    lemma_tally_concat(front, back, f);
    assert forall|i: int| 0 <= i < front.len() implies f(#[trigger] front[i]) >= 0 by {
        assert(front[i] == s[i]);
    }
    assert forall|i: int| 0 <= i < back.len() implies f(#[trigger] back[i]) >= 0 by {
        assert(back[i] == s[i + k]);
    }
    lemma_tally_bounds(front, f);
    lemma_tally_bounds(back, f);
}

/// Where every value is `c`, the total is `c` times the number of items.
pub proof fn lemma_tally_constant<T>(s: Seq<T>, f: spec_fn(T) -> int, c: int)
    requires
        forall|i: int| 0 <= i < s.len() ==> f(#[trigger] s[i]) == c,
    ensures
        tally(s, f) == c * s.len(),
    decreases s.len(),
{
    if s.len() == 0 {
        assert(c * 0 == 0);
    } else {
        let front = s.drop_last();
        assert forall|i: int| 0 <= i < front.len() implies f(#[trigger] front[i]) == c by {
            assert(front[i] == s[i]);
        }
        lemma_tally_constant(front, f, c);
        assert(f(s[s.len() - 1]) == c);
        assert(c * s.len() == c * (s.len() - 1) + c) by (nonlinear_arith);
    }
}

/// Where every value of `f` is at most that of `g`, so is the total.
pub proof fn lemma_tally_le<T>(s: Seq<T>, f: spec_fn(T) -> int, g: spec_fn(T) -> int)
    requires
        forall|i: int| 0 <= i < s.len() ==> f(#[trigger] s[i]) <= g(s[i]),
    ensures
        tally(s, f) <= tally(s, g),
    decreases s.len(),
{
    if s.len() > 0 {
        let front = s.drop_last();
        assert forall|i: int| 0 <= i < front.len() implies f(#[trigger] front[i]) <= g(
            front[i],
        ) by {
            assert(front[i] == s[i]);
        }
        lemma_tally_le(front, f, g);
        assert(f(s[s.len() - 1]) <= g(s[s.len() - 1]));
    }
}

/// What holds of every item of a sequence holds of every item of a sequence
/// that holds the same items.
pub proof fn lemma_same_items<T>(a: Seq<T>, b: Seq<T>, holds: spec_fn(T) -> bool)
    requires
        a.to_multiset() == b.to_multiset(),
        forall|i: int| 0 <= i < a.len() ==> holds(#[trigger] a[i]),
    ensures
        forall|i: int| 0 <= i < b.len() ==> holds(#[trigger] b[i]),
{
    broadcast use group_to_multiset_ensures;

    assert forall|i: int| 0 <= i < b.len() implies holds(#[trigger] b[i]) by {
        assert(b.contains(b[i]));
        assert(b.to_multiset().count(b[i]) > 0);
        assert(a.contains(b[i]));
        let j = choose|j: int| 0 <= j < a.len() && a[j] == b[i];
        assert(holds(a[j]));
    }
}

/// A total does not depend on the order of the items.
pub proof fn lemma_tally_permutation<T>(a: Seq<T>, b: Seq<T>, f: spec_fn(T) -> int)
    requires
        a.to_multiset() == b.to_multiset(),
    ensures
        tally(a, f) == tally(b, f),
        a.len() == b.len(),
    decreases a.len(),
{
    broadcast use group_to_multiset_ensures;

    if a.len() == 0 {
        assert(b.to_multiset().len() == 0);
    } else {
        let x = a.last();
        assert(a.contains(x)) by {
            assert(a[a.len() - 1] == x);
        }
        assert(b.to_multiset().count(x) > 0);
        assert(b.contains(x));
        let j = choose|j: int| 0 <= j < b.len() && b[j] == x;
        assert(a.drop_last() =~= a.remove(a.len() - 1));
        assert(a.remove(a.len() - 1).to_multiset() == a.to_multiset().remove(x));
        assert(b.remove(j).to_multiset() == b.to_multiset().remove(x));
        lemma_tally_permutation(a.drop_last(), b.remove(j), f);
        lemma_tally_remove(b, f, j);
    }
}

} // verus!
