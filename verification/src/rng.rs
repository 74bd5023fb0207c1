//! The seeded random source.
//!
//! The generator is `rand_pcg::Pcg64`, seeded through `rand_seeder::Seeder` and
//! read through `rand::Rng`. None of that code is verified here. Each call is
//! made by one small function of this module whose contract is taken on trust;
//! what a call returns is given a name, so that the rest of the library can say
//! exactly which drawn value went where.

use vstd::prelude::*;
use rand::Rng;
use rand_pcg::Pcg64;
use rand_seeder::Seeder;

verus! {

/// `rand_pcg::Lcg128Xsl64`, the generator behind the alias `Pcg64`. Nothing of its
/// inside is visible to the verifier.
#[verifier::external_type_specification]
#[verifier::external_body]
pub struct ExLcg128Xsl64(rand_pcg::Lcg128Xsl64);

/// The whole internal state of a generator (its 128-bit state word and its
/// 128-bit stream selector), read as one number.
pub uninterp spec fn rng_state(rng: Pcg64) -> nat;

/// The state of the generator that `Seeder::from(seed).make_rng::<Pcg64>()`
/// builds from a string.
pub uninterp spec fn state_from_text(seed: Seq<char>) -> nat;

/// The state of the generator that `Seeder::from(letter).make_rng::<Pcg64>()`
/// builds from an optional letter.
pub uninterp spec fn state_from_letter(letter: Option<char>) -> nat;

/// What `Rng::gen_ratio(1, 2)`, an even coin, does to a generator in the given
/// state: the drawn boolean and the state it leaves behind.
pub uninterp spec fn bool_draw(state: nat) -> (bool, nat);

/// What `Rng::gen_range(0..4)` does to a generator in the given state: the drawn
/// number and the state it leaves behind.
pub uninterp spec fn quadrant_draw(state: nat) -> (nat, nat);

/// Calls `rand_seeder::Seeder::from` on the string and `Seeder::make_rng` for a
/// `Pcg64`. Trusted: the seeder hashes the string's bytes with a fixed-key
/// SipHash, so the generator's state depends on the characters alone.
#[verifier::external_body]
pub(crate) fn rng_from_text(seed: &str) -> (rng: Pcg64)
    ensures
        rng_state(rng) == state_from_text(seed@),
{
    Seeder::from(seed).make_rng()
}

/// Calls `rand_seeder::Seeder::from` on the optional letter and
/// `Seeder::make_rng` for a `Pcg64`. Trusted: the seeder's hasher fixes width
/// and byte order of everything it is fed, so the generator's state depends on
/// the letter alone.
#[verifier::external_body]
pub(crate) fn rng_from_letter(letter: Option<char>) -> (rng: Pcg64)
    ensures
        rng_state(rng) == state_from_letter(letter),
{
    Seeder::from(letter).make_rng()
}

/// Calls `rand::Rng::gen_ratio` with the ratio one in two. Trusted: the result
/// and the generator's next state depend on its state before the call alone.
#[verifier::external_body]
pub(crate) fn flip(rng: &mut Pcg64) -> (drawn: bool)
    ensures
        (drawn, rng_state(*final(rng))) == bool_draw(rng_state(*old(rng))),
{
    rng.gen_ratio(1, 2)
}

/// Calls `rand::Rng::gen_range` on `0..4` for an `i32`. Trusted: the result lies
/// in the range, and it and the generator's next state depend on its state
/// before the call alone.
#[verifier::external_body]
pub(crate) fn pick_quadrant(rng: &mut Pcg64) -> (drawn: usize)
    ensures
        drawn < 4,
        (drawn as nat, rng_state(*final(rng))) == quadrant_draw(rng_state(*old(rng))),
{
    let drawn: i32 = rng.gen_range(0..4);
    drawn as usize
}

} // verus!
