//! The crate's only source of randomness: a caller-supplied seedable
//! generator, threaded explicitly through every sampling call.

use vstd::prelude::*;

verus! {

/// Declares rand's standard generator so its values can flow through
/// verified signatures; the generator state itself is opaque.
#[verifier::external_type_specification]
#[verifier::external_body]
pub struct ExStdRng(rand::rngs::StdRng);

/// Relies on rand::Rng::gen_range over `0..n`, which panics exactly on an
/// empty range and otherwise returns a value inside the range.
#[verifier::external_body]
pub(crate) fn rand_below(rng: &mut rand::rngs::StdRng, n: usize) -> (r: usize)
    requires
        n >= 1,
    ensures
        r < n,
{
    rand::Rng::gen_range(rng, 0..n)
}

/// Relies on rand::Rng::gen at type `bool`: returns one of the two
/// booleans; nothing is promised about which.
#[verifier::external_body]
pub(crate) fn rand_bool(rng: &mut rand::rngs::StdRng) -> bool {
    rand::Rng::gen(rng)
}

/// Relies on rand::seq::SliceRandom::shuffle: reorders the slice in place
/// by element swaps, so the multiset of elements is unchanged.
#[verifier::external_body]
pub(crate) fn shuffle(rng: &mut rand::rngs::StdRng, v: &mut Vec<usize>)
    ensures
        final(v)@.to_multiset() == old(v)@.to_multiset(),
        final(v)@.len() == old(v)@.len(),
{
    rand::seq::SliceRandom::shuffle(v.as_mut_slice(), rng)
}

/// Relies on rand::seq::SliceRandom::choose: returns `None` exactly on an
/// empty slice and otherwise one of its elements.
#[verifier::external_body]
pub(crate) fn pick_pair(rng: &mut rand::rngs::StdRng, v: &Vec<(usize, usize)>) -> (r: Option<(usize, usize)>)
    ensures
        match r {
            Some(p) => exists|i: int| 0 <= i < v@.len() && v@[i] == p,
            None => v@.len() == 0,
        },
{
    rand::seq::SliceRandom::choose(v.as_slice(), rng).copied()
}

} // verus!
