//! Walsh-Hadamard pre-pass support: the power-of-two test that decides
//! whether an index dimension admits the `WalshRotor3` rotation, and the
//! seeded random signs applied before the transform.
use vstd::prelude::*;

use rand::distributions::Standard;
use rand::{Rng, SeedableRng};
use rand_chacha::ChaCha8Rng;

verus! {

/// The first `n` booleans that `rand::Rng::gen::<bool>()` draws from a
/// `rand_chacha::ChaCha8Rng` created by `SeedableRng::seed_from_u64(seed)`.
/// ChaCha8 is a portable deterministic generator, so these depend on
/// `seed` and `n` alone.
pub uninterp spec fn chacha8_bools(seed: u64, n: nat) -> Seq<bool>;

/// Trusted: seeds `rand_chacha::ChaCha8Rng::seed_from_u64(seed)` and takes
/// the first `n` booleans of `rand::Rng::sample_iter(rand::distributions::Standard)`
/// on it, which draws exactly as `n` calls of `Rng::gen::<bool>()` do. The
/// contract claims that the result is [`chacha8_bools`] of the arguments
/// and has `n` entries.
#[verifier::external_body]
fn draw_chacha8_bools(seed: u64, n: usize) -> (v: Vec<bool>)
    ensures
        v@ == chacha8_bools(seed, n as nat),
        v@.len() == n,
{
    ChaCha8Rng::seed_from_u64(seed).sample_iter(Standard).take(n).collect()
}

/// The deterministic sign pattern of length `dim` for `seed`: entry `i`
/// is `true` for `+1` and `false` for `-1`.
pub fn make_sign_vector(dim: usize, seed: u64) -> (signs: Vec<bool>)
    ensures
        signs@ == chacha8_bools(seed, dim as nat),
        signs@.len() == dim,
{
    draw_chacha8_bools(seed, dim)
}

/// `n` is a positive power of two.
pub open spec fn is_power_of_two(n: int) -> bool
    decreases n,
{
    if n <= 0 {
        false
    } else if n == 1 {
        true
    } else {
        n % 2 == 0 && is_power_of_two(n / 2)
    }
}

proof fn lemma_clear_lowest_bit(n: usize)
    ensures
        (n > 0 && (n & sub1(n)) == 0) == is_power_of_two(n as int),
    decreases n,
{
    if n == 0 {
    } else if n == 1 {
        assert((1usize & 0usize) == 0) by (bit_vector);
    } else if n % 2 == 0 {
        let h = n / 2;
        assert(n % 2 == 0 && n >= 2 ==> ((n & ((n - 1) as usize)) == 0) == ((((n / 2) as usize) & (((n
            / 2) - 1) as usize)) == 0)) by (bit_vector);
        lemma_clear_lowest_bit(h);
    } else {
        assert(n % 2 == 1 && n >= 3 ==> (n & ((n - 1) as usize)) != 0) by (bit_vector);
    }
}

spec fn sub1(n: usize) -> usize {
    (n - 1) as usize
}

/// True iff `n` is a power of two (and nonzero).
pub fn is_pow2(n: usize) -> (b: bool)
    ensures
        b == is_power_of_two(n as int),
{
    proof {
        lemma_clear_lowest_bit(n);
    }
    n > 0 && (n & (n - 1)) == 0
}

} // verus!
