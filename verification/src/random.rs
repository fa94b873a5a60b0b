//! The random source. Everything here is believed, not proved: each item
//! states what the `rand` crate does, as far as the generator relies on it.

use crate::pos::Pos;
use rand::Rng;
use rand::rngs::ThreadRng;
use rand::seq::IteratorRandom;
use vstd::prelude::*;

verus! {

/// `rand::rngs::ThreadRng`, the handle to the thread-local generator. Nothing
/// is known of what it holds.
#[verifier::external_type_specification]
#[verifier::external_body]
pub struct ExThreadRng(ThreadRng);

/// `rand::thread_rng` hands out the thread-local generator, seeded by the
/// operating system. Nothing is claimed of the handle. Where the operating
/// system's random source cannot be read, the call ends the program; no
/// argument could prevent that.
pub assume_specification[ rand::thread_rng ]() -> (rng: ThreadRng)
;

/// `Rng::gen_range(low, high)` on `usize`: some number of the half-open range
/// `low..high`. The call panics on an empty range, which `requires` excludes.
#[verifier::external_body]
pub(crate) fn gen_range(rng: &mut ThreadRng, low: usize, high: usize) -> (r: usize)
    requires
        low < high,
    ensures
        low <= r < high,
{
    rng.gen_range(low, high)
}

/// `IteratorRandom::choose` over the items: nothing if and only if there are
/// none, else one of them.
#[verifier::external_body]
pub(crate) fn pick_one(rng: &mut ThreadRng, items: &Vec<Pos>) -> (r: Option<Pos>)
    ensures
        r is None <==> items@.len() == 0,
        r is Some ==> items@.contains(r->0),
{
    items.iter().copied().choose(rng)
}

/// `IteratorRandom::choose_multiple` over the items: `amount` of them, each
/// taken from a place of its own in `items`, in no particular order. With
/// `amount` beyond the number of items the call would return fewer, after
/// reserving room for `amount` of them; `requires` leaves that out.
#[verifier::external_body]
pub(crate) fn pick_many(rng: &mut ThreadRng, items: &Vec<Pos>, amount: usize) -> (r: Vec<Pos>)
    requires
        amount <= items@.len(),
    ensures
        r@.len() == amount,
        r@.to_multiset().subset_of(items@.to_multiset()),
{
    items.iter().copied().choose_multiple(rng, amount)
}

} // verus!
