//! Chance, as the rand crate has it.

use rand::seq::SliceRandom;
use vstd::prelude::*;

verus! {

/// `SliceRandom::choose`: one of the items, which one is left to chance.
#[verifier::external_body]
pub(crate) fn random_item<T>(items: &[T]) -> (r: &T)
    requires
        items@.len() > 0,
    ensures
        items@.contains(*r),
{
    items.choose(&mut rand::thread_rng()).unwrap()
}

/// `SliceRandom::shuffle`: the same items, in an order that is left to chance.
#[verifier::external_body]
pub(crate) fn shuffled<T>(items: Vec<T>) -> (r: Vec<T>)
    ensures
        r@.to_multiset() == items@.to_multiset(),
{
    let mut r = items;
    r.shuffle(&mut rand::thread_rng());
    r
}

} // verus!
