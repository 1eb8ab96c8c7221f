//! The three places where chance enters: a starting position, an order of
//! the agents, and an heir. Each is one call of the `rand` crate on the
//! generator of the running thread. That generator panics where the
//! operating system gives it no seed, be it when it starts or when it seeds
//! itself anew after many draws; no argument decides that, so no contract
//! here can leave it out. Nothing is proved of these calls: what is stated is
//! taken from the crate's source, and it is only what holds of every draw.

use rand::seq::SliceRandom;
use rand::Rng;
use vstd::prelude::*;

verus! {

/// `Rng::gen_range` on `0..len`, drawn from `rand::thread_rng()`.
///
/// It samples the half-open range, so the position lies below `len`; on an
/// empty range it panics, which is why `len` may not be zero.
#[verifier::external_body]
pub(crate) fn random_index(len: usize) -> (index: usize)
    requires
        len > 0,
    ensures
        index < len,
{
    rand::thread_rng().gen_range(0..len)
}

/// `SliceRandom::shuffle` on the items, drawn from `rand::thread_rng()`.
///
/// It only ever swaps two items of the slice, so afterwards the vector holds
/// the items it held before, each as often as before, in some order.
#[verifier::external_body]
pub(crate) fn shuffle<T>(items: &mut Vec<T>)
    ensures
        final(items)@.to_multiset() == old(items)@.to_multiset(),
{
    items.shuffle(&mut rand::thread_rng())
}

/// `SliceRandom::choose_mut` on the items, drawn from `rand::thread_rng()`.
///
/// On an empty slice it returns `None`. Otherwise it returns a reference to
/// the item at some position of the slice: the other items stay as they are,
/// and that item becomes what the caller makes of it.
#[verifier::external_body]
pub(crate) fn choose_mut<T>(items: &mut Vec<T>) -> (chosen: Option<&mut T>)
    ensures
        old(items)@.len() == 0 ==> chosen is None && final(items)@ == old(items)@,
        old(items)@.len() != 0 ==> chosen is Some && exists|i: int|
            0 <= i < old(items)@.len() && *chosen.unwrap() == old(items)@[i] && final(items)@
                == old(items)@.update(i, *final(chosen.unwrap())),
{
    items.choose_mut(&mut rand::thread_rng())
}

} // verus!
