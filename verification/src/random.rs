//! Random choices, drawn from a seeded ChaCha8 generator.
//!
//! What a draw returns depends on the generator's state, so these items state
//! only what holds of every outcome.
use vstd::prelude::*;
use rand::Rng;
use rand_chacha::ChaCha8Rng;

verus! {

#[verifier::external_type_specification]
#[verifier::external_body]
pub struct ExChaCha8Rng(ChaCha8Rng);

/// `rand::Rng::gen_range(0..bound)` drawing a `usize`: a value in
/// `0..bound`. The range must not be empty (the call panics on an empty
/// range).
#[verifier::external_body]
pub fn random_usize_below(rng: &mut ChaCha8Rng, bound: usize) -> (r: usize)
    requires
        bound > 0,
    ensures
        r < bound,
{
    rng.gen_range(0..bound)
}

/// `rand::Rng::gen_range(0..bound)` drawing an `i32`: a value in
/// `0..bound`. The range must not be empty.
#[verifier::external_body]
pub fn random_i32_below(rng: &mut ChaCha8Rng, bound: i32) -> (r: i32)
    requires
        bound > 0,
    ensures
        0 <= r < bound,
{
    rng.gen_range(0..bound)
}

/// `rand::Rng::gen_range(0..bound)` drawing a `u32`: a value in `0..bound`.
/// The range must not be empty.
#[verifier::external_body]
pub fn random_u32_below(rng: &mut ChaCha8Rng, bound: u32) -> (r: u32)
    requires
        bound > 0,
    ensures
        r < bound,
{
    rng.gen_range(0..bound)
}

/// `rand::Rng::gen_ratio(numerator, denominator)`: `true` with probability
/// `numerator / denominator`. It is never `true` for a zero numerator and
/// always `true` when numerator and denominator are equal; it panics for a
/// zero denominator or a numerator above the denominator.
#[verifier::external_body]
pub fn random_ratio(rng: &mut ChaCha8Rng, numerator: u32, denominator: u32) -> (r: bool)
    requires
        denominator > 0,
        numerator <= denominator,
    ensures
        numerator == 0 ==> !r,
        numerator == denominator ==> r,
{
    rng.gen_ratio(numerator, denominator)
}

} // verus!
