//! The game's random number generator and the random choices made with it.
use rand::rngs::StdRng;
use rand::seq::{IndexedRandom, IteratorRandom, SliceRandom};
use rand::Rng;
use vstd::prelude::*;

verus! {

/// rand's seeded generator.
#[verifier::external_type_specification]
#[verifier::external_body]
pub struct ExStdRng(StdRng);

/// The game's random number generator, shared by everything that chooses at
/// random.
pub struct Seed(pub StdRng);

/// Calls rand's `IndexedRandom::choose` on a slice of entities: `None` exactly
/// when the slice is empty, otherwise one of its elements. Which one is left
/// open (it depends on the generator's state).
#[verifier::external_body]
pub(crate) fn choose_indexed(items: &Vec<usize>, rng: &mut StdRng) -> (r: Option<usize>)
    ensures
        r is None <==> items@.len() == 0,
        r matches Some(x) ==> items@.contains(x),
{
    items.as_slice().choose(rng).copied()
}

/// Calls rand's `IteratorRandom::choose` on an iterator over the entities of a
/// vector (whose size hint is exact): `None` exactly when there are none,
/// otherwise one of them; which one is left open.
#[verifier::external_body]
pub(crate) fn choose_from_iter(items: &Vec<usize>, rng: &mut StdRng) -> (r: Option<usize>)
    ensures
        r is None <==> items@.len() == 0,
        r matches Some(x) ==> items@.contains(x),
{
    items.iter().copied().choose(rng)
}

/// Calls rand's `SliceRandom::shuffle` on a vector of strings: the result is
/// a permutation of the input; which one is left open.
#[verifier::external_body]
pub(crate) fn shuffle_strings(items: &mut Vec<String>, rng: &mut StdRng)
    ensures
        final(items)@.len() == old(items)@.len(),
        final(items)@.to_multiset() == old(items)@.to_multiset(),
{
    items.shuffle(rng)
}

/// Calls rand's `Rng::random_range` on `low..high` of `u32`: a value in the
/// range; which one is left open. The range must not be empty (it panics on an
/// empty one).
#[verifier::external_body]
pub(crate) fn random_range_u32(rng: &mut StdRng, low: u32, high: u32) -> (r: u32)
    requires
        low < high,
    ensures
        low <= r < high,
{
    rng.random_range(low..high)
}

} // verus!
