//! Sources of random 64-bit words. The public matrix `A` and seeded secrets
//! come from a ChaCha20 stream that is a pure function of a 64-bit seed, so
//! client and server regenerate identical matrices from the seed alone;
//! per-query secrets and noise draws come from system entropy.
use rand::Rng;
use rand::SeedableRng;
use vstd::prelude::*;

verus! {

/// The first `count` words of the ChaCha20 stream seeded with `seed`: a pure
/// function of its arguments, never of the machine or the process.
pub uninterp spec fn chacha_stream(seed: u64, count: nat) -> Seq<u64>;

/// Relies on `rand_chacha::ChaCha20Rng::seed_from_u64` and `rand::Rng::fill`:
/// the generator's byte stream is a deterministic function of the 64-bit
/// seed, and `fill` turns its first `8 * count` bytes into `count` words,
/// each read little-endian, on every platform alike.
#[verifier::external_body]
pub fn chacha_words(seed: u64, count: usize) -> (r: Vec<u64>)
    ensures
        r@ == chacha_stream(seed, count as nat),
        r@.len() == count,
{
    let mut rng = rand_chacha::ChaCha20Rng::seed_from_u64(seed);
    let mut buf = vec![0u64; count];
    rng.fill(&mut buf[..]);
    buf
}

/// Relies on `rand_chacha::ChaCha20Rng::from_entropy` and `rand::Rng::fill`:
/// `count` words drawn from a generator seeded with system entropy. Nothing
/// is promised of the words beyond their number.
#[verifier::external_body]
pub fn entropy_words(count: usize) -> (r: Vec<u64>)
    ensures
        r@.len() == count,
{
    let mut rng = rand_chacha::ChaCha20Rng::from_entropy();
    let mut buf = vec![0u64; count];
    rng.fill(&mut buf[..]);
    buf
}

/// Relies on `rand::thread_rng` and `rand::Rng::gen`: one word of system
/// entropy, used to seed a fresh parameter set.
#[verifier::external_body]
pub fn entropy_u64() -> u64 {
    rand::thread_rng().gen()
}

} // verus!
