//! Random choices, drawn from the generator of the current thread.
//!
//! Nothing here is proved: each function hands its arguments to the `rand`
//! crate, and its contract says what that crate documents of every outcome.
//! A draw stops the program if the operating system cannot reseed the
//! generator.

use rand::rngs::ThreadRng;
use rand::seq::{IndexedRandom, IteratorRandom};
use rand::Rng;
use std::collections::VecDeque;
use vstd::prelude::*;

verus! {

/// `rand::rngs::ThreadRng`, the handle to the generator of the current
/// thread. Its state is not modelled.
#[verifier::external_type_specification]
#[verifier::external_body]
pub struct ExThreadRng(ThreadRng);

/// Draws an index below `len` with `Rng::random_range`.
///
/// Assumed of `random_range(0..len)`: for a range that is not empty, which
/// is what `len > 0` asks, it returns a value inside the range. Which value
/// is not stated.
#[verifier::external_body]
pub(crate) fn random_index(rng: &mut ThreadRng, len: usize) -> (index: usize)
    requires
        len > 0,
    ensures
        index < len,
{
    rng.random_range(0..len)
}

/// Draws one of `pages` with `IndexedRandom::choose`.
///
/// Assumed of `choose` on a slice: it returns one of the elements, and
/// `None` for an empty slice only. Which element is not stated.
#[verifier::external_body]
pub(crate) fn choose_page(pages: &Vec<usize>, rng: &mut ThreadRng) -> (chosen: Option<usize>)
    ensures
        match chosen {
            Some(page) => pages@.contains(page),
            None => pages@.len() == 0,
        },
{
    pages.choose(rng).copied()
}

/// Draws one of the pages of `memory` with `IteratorRandom::choose`.
///
/// Assumed of `choose` on the iterator of a `VecDeque`, whose size hint is
/// exact: it returns one of the items, and `None` for an empty queue only.
/// Which item is not stated.
#[verifier::external_body]
pub(crate) fn choose_resident(memory: &VecDeque<usize>, rng: &mut ThreadRng) -> (chosen: Option<
    usize,
>)
    ensures
        match chosen {
            Some(page) => memory@.contains(page),
            None => memory@.len() == 0,
        },
{
    memory.iter().choose(rng).copied()
}

} // verus!
