//! The random draws of the layout, taken from the thread's generator.

use crate::coord::Coord;
use rand::seq::SliceRandom;
use rand::Rng;
use vstd::prelude::*;

verus! {

/// `Rng::gen_range` on the thread's generator, for the half-open range
/// `low..high`. The draw lies in the range; an empty range is excluded because
/// the generator panics on it.
#[verifier::external_body]
pub(crate) fn random_range(low: i64, high: i64) -> (r: i64)
    requires
        low < high,
    ensures
        low <= r < high,
{
    rand::thread_rng().gen_range(low..high)
}

/// `SliceRandom::choose` on the thread's generator: one element of the list,
/// or nothing where the list is empty.
#[verifier::external_body]
pub(crate) fn choose_coord(coords: &Vec<Coord>) -> (r: Option<Coord>)
    ensures
        coords@.len() == 0 ==> r is None,
        coords@.len() > 0 ==> r is Some && coords@.contains(r->0),
{
    coords.choose(&mut rand::thread_rng()).copied()
}

/// `SliceRandom::shuffle` on the thread's generator: the list is permuted in
/// place, so it holds the same coordinates as before, each as often.
#[verifier::external_body]
pub(crate) fn shuffle_coords(coords: &mut Vec<Coord>)
    ensures
        final(coords)@.to_multiset() == old(coords)@.to_multiset(),
{
    coords.shuffle(&mut rand::thread_rng());
}

} // verus!
