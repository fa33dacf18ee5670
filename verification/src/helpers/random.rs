//! Draws from the random number generator that the map architects share.

use vstd::prelude::*;
use bracket_random::prelude::RandomNumberGenerator;

verus! {

/// `bracket_random`'s `RandomNumberGenerator`, handed on as it is: nothing
/// is claimed of what it holds.
#[verifier::external_type_specification]
#[verifier::external_body]
pub struct ExRandomNumberGenerator(RandomNumberGenerator);

/// Draws a number with `RandomNumberGenerator::range`, which samples the
/// half-open range from `min` to `max` and panics on an empty one. Nothing is
/// claimed of the draw but that it lies in the range.
#[verifier::external_body]
pub(crate) fn roll_range(rng: &mut RandomNumberGenerator, min: i32, max: i32) -> (roll: i32)
    requires
        min < max,
    ensures
        min <= roll < max,
{
    rng.range(min, max)
}

/// Picks a position in `items` with `RandomNumberGenerator::random_slice_index`,
/// which gives none for an empty slice and else rolls one die with as many
/// sides as there are items. Nothing is claimed of the pick but that it is a
/// position of the slice.
#[verifier::external_body]
pub(crate) fn roll_index<T>(rng: &mut RandomNumberGenerator, items: &Vec<T>) -> (pick: Option<usize>)
    requires
        items.len() < i32::MAX,
    ensures
        pick is None <==> items.len() == 0,
        pick matches Some(i) ==> i < items.len(),
{
    rng.random_slice_index(items.as_slice())
}

} // verus!
