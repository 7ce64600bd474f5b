use vstd::prelude::*;

use rand::seq::IndexedRandom;

use crate::components::Position;

verus! {

/// Relies on rand::random_ratio: a numerator of zero never succeeds and a numerator
/// equal to the denominator always does; it panics on a zero denominator or a
/// numerator above the denominator.
#[verifier::external_body]
pub(crate) fn chance(numerator: u32, denominator: u32) -> (r: bool)
    requires
        0 < denominator,
        numerator <= denominator,
    ensures
        numerator == 0 ==> !r,
        numerator == denominator ==> r,
{
    rand::random_ratio(numerator, denominator)
}

/// Relies on rand::random_range over the half-open range `low..high`: the draw lies
/// in the range; it panics on an empty range.
#[verifier::external_body]
pub(crate) fn random_below(low: usize, high: usize) -> (r: usize)
    requires
        low < high,
    ensures
        low <= r < high,
{
    rand::random_range(low..high)
}

/// Relies on rand's IndexedRandom::choose: none from an empty slice, otherwise one of
/// its elements.
#[verifier::external_body]
pub(crate) fn choose_position(options: &Vec<Position>) -> (r: Option<Position>)
    ensures
        r.is_none() <==> options@.len() == 0,
        r.is_some() ==> options@.contains(r.unwrap()),
{
    options.as_slice().choose(&mut rand::rng()).copied()
}

} // verus!
