use vstd::prelude::*;

verus! {

/// The PCG generator of `oorandom`, carried through the library as an opaque value.
#[verifier::external_type_specification]
#[verifier::external_body]
pub struct ExRand32(oorandom::Rand32);

/// Relies on `oorandom::Rand32::new`: builds a generator from a seed.
pub assume_specification[ oorandom::Rand32::new ](seed: u64) -> oorandom::Rand32;

/// Relies on `oorandom::Rand32::rand_u32`: draws a value over the whole `u32` range.
pub assume_specification[ oorandom::Rand32::rand_u32 ](rng: &mut oorandom::Rand32) -> u32;

/// Relies on `oorandom::Rand32::rand_i32`: draws a value over the whole `i32` range.
pub assume_specification[ oorandom::Rand32::rand_i32 ](rng: &mut oorandom::Rand32) -> i32;

/// Relies on `oorandom::Rand32::rand_range`: for a non-empty range the draw
/// lies in `[start, end)`. An empty range underflows in the crate's code, so
/// it is excluded.
pub assume_specification[ oorandom::Rand32::rand_range ](
    rng: &mut oorandom::Rand32,
    range: core::ops::Range<u32>,
) -> (r: u32)
    requires
        range.start < range.end,
    ensures
        range.start <= r < range.end,
;

} // verus!
