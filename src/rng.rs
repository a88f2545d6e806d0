use vstd::prelude::*;
use rand::Rng;
use rand::seq::SliceRandom;
use crate::cell::Direction;
use rand::rngs::StdRng;

verus! {

/// rand's `StdRng`, the seedable generator that maze carving and enemy
/// placement draw from; it is carried through opaquely.
#[verifier::external_type_specification]
#[verifier::external_body]
pub struct ExStdRng(StdRng);

/// Relies on rand's `Rng::gen_range` over `0..n`: a value drawn from the
/// half-open range, which must not be empty.
#[verifier::external_body]
pub(crate) fn pick_below(rng: &mut StdRng, n: usize) -> (r: usize)
    requires
        0 < n,
    ensures
        r < n,
{
    rng.gen_range(0..n)
}

/// Relies on rand's `SliceRandom::choose` on a slice: for a non-empty
/// slice it returns one of its elements, drawn uniformly.
#[verifier::external_body]
pub(crate) fn choose_step(rng: &mut StdRng, items: &Vec<(usize, usize, Direction)>) -> (r: (usize, usize, Direction))
    requires
        items@.len() > 0,
    ensures
        items@.contains(r),
{
    *items.choose(rng).unwrap()
}

} // verus!
