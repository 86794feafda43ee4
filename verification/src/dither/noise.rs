//! The random words that dither is made of.
use vstd::prelude::*;
use rand::rngs::StdRng;

verus! {

/// A seeded pseudo-random generator.
#[verifier::external_type_specification]
#[verifier::external_body]
pub struct ExStdRng(rand::rngs::StdRng);

/// The words that a generator will give: word `i` is the one that comes after `i` others.
pub uninterp spec fn rng_word(rng: StdRng, i: nat) -> u64;

/// The words of the generator that a seed starts.
pub uninterp spec fn seeded_word(seed: u64, i: nat) -> u64;

/// Calls `rand::SeedableRng::seed_from_u64` for `StdRng`.
///
/// Trusted: the generator, and so every word it will give, is a function of the seed.
#[verifier::external_body]
pub(crate) fn seeded(seed: u64) -> (r: StdRng)
    ensures
        forall|i: nat| #[trigger] rng_word(r, i) == seeded_word(seed, i),
{
    <StdRng as rand::SeedableRng>::seed_from_u64(seed)
}

/// Calls `rand::SeedableRng::from_entropy` for `StdRng`.
///
/// Nothing is claimed of the generator: its seed comes from the operating system.
#[verifier::external_body]
pub(crate) fn unseeded() -> (r: StdRng) {
    <StdRng as rand::SeedableRng>::from_entropy()
}

/// Calls `rand::RngCore::next_u64` for `StdRng`.
///
/// Trusted: the generator gives its first word and goes on with the others.
#[verifier::external_body]
pub(crate) fn next_word(rng: &mut StdRng) -> (w: u64)
    ensures
        w == rng_word(*old(rng), 0),
        forall|i: nat| #[trigger] rng_word(*final(rng), i) == rng_word(*old(rng), i + 1),
{
    rand::RngCore::next_u64(rng)
}

/// Triangular noise from two words, in units of `2^-53` of a step of the quantizer. Each word
/// gives 52 random bits, a uniform number in `[-1/2, 1/2)`; the noise is the sum of the two.
pub open spec fn triangular(a: u64, b: u64) -> int {
    2 * (a / 4096 + b / 4096 - 0x10_0000_0000_0000)
}

/// The noise of the next two words of a generator.
pub(crate) fn next_triangular(rng: &mut StdRng) -> (r: i64)
    ensures
        r == triangular(rng_word(*old(rng), 0), rng_word(*old(rng), 1)),
        forall|i: nat| #[trigger] rng_word(*final(rng), i) == rng_word(*old(rng), i + 2),
{
    let a = next_word(rng);
    let b = next_word(rng);
    let sum: i64 = (a / 4096) as i64 + (b / 4096) as i64;
    2 * (sum - 0x10_0000_0000_0000)
}

/// The noise lies between one step below and one step above zero.
pub proof fn law_noise_is_within_one_step(a: u64, b: u64)
    ensures
        -0x20_0000_0000_0000 <= triangular(a, b) < 0x20_0000_0000_0000,
{
}

/// The noise is the sum of the two words: a word below `2^64` counts as a number from minus a
/// half to a half of a step, to within a part in `2^52`.
pub proof fn law_noise_is_the_sum_of_two_words(a: u64, b: u64)
    ensures
        a + b - 0x1_0000_0000_0000_0000 - 8192 < 2048 * triangular(a, b) <= a + b
            - 0x1_0000_0000_0000_0000,
{
}

} // verus!
