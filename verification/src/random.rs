//! The random source of the generator: the one place where chance enters.

use rand::seq::IndexedRandom;
use vstd::prelude::*;

verus! {

#[verifier::external_type_specification]
#[verifier::external_body]
pub struct ExStdRng(rand::rngs::StdRng);

/// Draws one item of `items` with `rand::seq::IndexedRandom::choose`, which
/// returns `None` for an empty slice and otherwise a reference to one
/// element of the slice, every position being equally likely. The contract
/// claims only that much: which element comes back is left open.
#[verifier::external_body]
pub(crate) fn pick<'a, T>(items: &'a [T], rng: &mut rand::rngs::StdRng) -> (r: Option<&'a T>)
    ensures
        r is Some <==> items@.len() > 0,
        r matches Some(item) ==> exists|i: int| 0 <= i < items@.len() && items@[i] == *item,
{
    items.choose(rng)
}

} // verus!
