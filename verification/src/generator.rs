//! Random numbers from rand's standard generator. What is taken on trust of it stands here.

use vstd::prelude::*;
use rand::rngs::StdRng;
use rand::seq::SliceRandom;
use rand::{Rng, SeedableRng};

verus! {

/// rand's standard random number generator.
#[verifier::external_type_specification]
#[verifier::external_body]
pub struct ExStdRng(StdRng);

/// The state of a generator, as words.
pub uninterp spec fn generator_state(rng: StdRng) -> Seq<u32>;

/// The state of a generator that was seeded with `seed`.
pub uninterp spec fn seeded_state(seed: u64) -> Seq<u32>;

/// Calls rand's `SeedableRng::seed_from_u64` for `StdRng`. What is trusted: the state of the
/// generator depends on the seed and on nothing else.
#[verifier::external_body]
pub(crate) fn seeded(seed: u64) -> (r: StdRng)
    ensures
        generator_state(r) == seeded_state(seed),
{
    StdRng::seed_from_u64(seed)
}

/// What filling `n` words from a generator in the given state leads to: the words, and the
/// state behind it.
pub uninterp spec fn words_from(n: nat, state: Seq<u32>) -> (Seq<u32>, Seq<u32>);

/// Calls rand's `Rng::fill`, which draws a word for each place. What is trusted: the words and
/// the new state of the generator depend on how many words there are and on the state before,
/// and on nothing else, and each place gets one.
#[verifier::external_body]
pub(crate) fn fill(words: &mut Vec<u32>, rng: &mut StdRng)
    ensures
        (final(words)@, generator_state(*final(rng))) == words_from(
            old(words)@.len(),
            generator_state(*old(rng)),
        ),
        final(words)@.len() == old(words)@.len(),
{
    rng.fill(words.as_mut_slice());
}

/// What shuffling `tokens` with a generator in the given state leads to: the tokens in their
/// new order, and the state behind it.
pub uninterp spec fn shuffled_by(tokens: Seq<u32>, state: Seq<u32>) -> (Seq<u32>, Seq<u32>);

/// Calls rand's `SliceRandom::shuffle`, which exchanges tokens at places that it draws from
/// the generator. What is trusted: the new order and the new state of the generator depend on
/// the tokens and on the state before, and on nothing else, and every token occurs as often
/// as before.
#[verifier::external_body]
pub(crate) fn shuffle(tokens: &mut Vec<u32>, rng: &mut StdRng)
    ensures
        (final(tokens)@, generator_state(*final(rng))) == shuffled_by(
            old(tokens)@,
            generator_state(*old(rng)),
        ),
        final(tokens)@.to_multiset() == old(tokens)@.to_multiset(),
{
    tokens.as_mut_slice().shuffle(rng);
}

} // verus!
