//! Random rolls.
//!
//! Every roll of the library goes through this module. A roll promises only that
//! its outcome lies in the requested range, so whatever is proved of a function
//! that rolls holds for every outcome. A generator made from the same seed rolls
//! the same numbers in one build of the program; no contract says so, because the
//! generator's documentation promises no numbers that outlive a build.

use rand::rngs::StdRng;
use rand::{Rng, SeedableRng};
use vstd::prelude::*;

verus! {

/// `rand::rngs::StdRng`: the generator's state, carried through unread.
#[verifier::external_type_specification]
#[verifier::external_body]
pub struct ExStdRng(StdRng);

/// `rand::SeedableRng::seed_from_u64` on `StdRng`. The generator's documentation
/// calls its stream deterministic but not reproducible across configurations and
/// versions, so nothing is claimed of the state.
#[verifier::external_body]
pub(crate) fn seeded(seed: u64) -> StdRng {
    StdRng::seed_from_u64(seed)
}

/// `rand::random`: a fresh value from the thread's generator, about which nothing
/// can be promised.
#[verifier::external_body]
pub(crate) fn fresh_seed() -> u64 {
    rand::random::<u64>()
}

/// `rand::Rng::gen_range` on an inclusive range of `i32`. The outcome lies in the
/// range; an empty range makes the outside function panic and is left out.
#[verifier::external_body]
pub(crate) fn range(rng: &mut StdRng, lo: i32, hi: i32) -> (roll: i32)
    requires
        lo <= hi,
    ensures
        lo <= roll <= hi,
{
    rng.gen_range(lo..=hi)
}

/// `rand::Rng::gen_range` on `0..len`. The outcome is below `len`; `len == 0`
/// makes the outside function panic and is left out.
#[verifier::external_body]
pub(crate) fn index_below(rng: &mut StdRng, len: usize) -> (roll: usize)
    requires
        len > 0,
    ensures
        roll < len,
{
    rng.gen_range(0..len)
}

/// `rand::Rng::gen_ratio`: whether something with a chance of `hits` in `of` happens. Which
/// way it goes is left open, unless it is certain or impossible; more hits than `of` make the
/// outside function panic and are left out.
#[verifier::external_body]
pub(crate) fn chance(rng: &mut StdRng, hits: u32, of: u32) -> (hit: bool)
    requires
        0 < of,
        hits <= of,
    ensures
        hits == 0 ==> !hit,
        hits == of ==> hit,
{
    rng.gen_ratio(hits, of)
}

} // verus!
