//! The bots' source of randomness: rand's `StdRng`, reached through a few
//! trusted wrappers whose contracts state what holds of every outcome.
use rand::rngs::StdRng;
use rand::seq::SliceRandom;
use rand::Rng;
use rand::SeedableRng;
use vstd::prelude::*;

verus! {

/// rand's `StdRng`, known to Verus only as an opaque value.
#[verifier::external_type_specification]
#[verifier::external_body]
pub struct ExStdRng(StdRng);

/// Low byte `i` (0 = least significant) of a 64-bit value.
pub open spec fn le_byte(value: u64, i: nat) -> u8
    decreases i,
{
    if i == 0 {
        (value % 256) as u8
    } else {
        le_byte(value / 256, (i - 1) as nat)
    }
}

/// The 32-byte seed whose first eight bytes are `seed` in little-endian order
/// and whose other bytes are zero.
pub fn seed_bytes(seed: u64) -> (r: [u8; 32])
    ensures
        r@ == seed_bytes_of(seed),
        forall|i: int| 0 <= i < 8 ==> r@[i] == le_byte(seed, i as nat),
        forall|i: int| 8 <= i < 32 ==> r@[i] == 0,
{
    let mut bytes = [0u8; 32];
    let mut cur: u64 = seed;
    let mut i: usize = 0;
    while i < 8
        invariant
            i <= 8,
            bytes@.len() == 32,
            forall|j: int| 0 <= j < i ==> bytes@[j] == le_byte(seed, j as nat),
            forall|j: int| 8 <= j < 32 ==> bytes@[j] == 0,
            forall|k: nat| #[trigger] le_byte(cur, k) == le_byte(seed, k + i as nat),
        decreases 8 - i,
    {
        assert(le_byte(cur, 0) == le_byte(seed, i as nat));
        bytes[i] = (cur % 256) as u8;
        proof {
            assert forall|k: nat| #[trigger] le_byte(cur / 256, k) == le_byte(seed, k + i as nat + 1) by {
                assert(le_byte(cur, k + 1) == le_byte(cur / 256, k));
            }
        }
        cur = cur / 256;
        i = i + 1;
    }
    assert(bytes@ =~= seed_bytes_of(seed));
    bytes
}

/// The 32 seed bytes whose first eight are `seed` in little-endian order and
/// whose others are zero.
pub open spec fn seed_bytes_of(seed: u64) -> Seq<u8> {
    Seq::new(32, |i: int| if i < 8 { le_byte(seed, i as nat) } else { 0u8 })
}

/// The generator rand's `StdRng::from_seed` makes from 32 seed bytes.
pub uninterp spec fn seeded_std_rng(seed: Seq<u8>) -> StdRng;

/// Calls `StdRng::from_seed`: the generator is determined by the 32 seed
/// bytes alone (rand seeds ChaCha12 with them, no other input).
#[verifier::external_body]
pub(crate) fn std_rng_from_seed(seed: [u8; 32]) -> (r: StdRng)
    ensures
        r == seeded_std_rng(seed@),
{
    StdRng::from_seed(seed)
}

/// The generator rand's `SeedableRng::seed_from_u64` makes for `StdRng` from
/// a 64-bit seed.
pub uninterp spec fn seeded_u64_std_rng(seed: u64) -> StdRng;

/// Calls `SeedableRng::seed_from_u64` for `StdRng`: rand expands the 64-bit
/// seed into 32 seed bytes with a fixed PCG32 stream and seeds from those, so
/// the generator is determined by `seed` alone.
#[verifier::external_body]
pub(crate) fn std_rng_seed_from_u64(seed: u64) -> (r: StdRng)
    ensures
        r == seeded_u64_std_rng(seed),
{
    StdRng::seed_from_u64(seed)
}

/// Calls `Rng::gen_range(0..bound)`: some index below `bound`.
#[verifier::external_body]
pub(crate) fn gen_index(rng: &mut StdRng, bound: usize) -> (r: usize)
    requires
        bound > 0,
    ensures
        r < bound,
{
    rng.gen_range(0..bound)
}

/// Calls `Rng::gen_ratio(numerator, denominator)`: `true` with chance
/// numerator in denominator; always `false` for a zero numerator and always
/// `true` when numerator equals denominator.
#[verifier::external_body]
pub(crate) fn gen_ratio(rng: &mut StdRng, numerator: u32, denominator: u32) -> (r: bool)
    requires
        0 < denominator,
        numerator <= denominator,
    ensures
        numerator == 0 ==> !r,
        numerator == denominator ==> r,
{
    rng.gen_ratio(numerator, denominator)
}

/// Calls `SliceRandom::shuffle`: the items are permuted in place.
#[verifier::external_body]
pub(crate) fn shuffle_indices(rng: &mut StdRng, items: &mut Vec<usize>)
    ensures
        final(items)@.len() == old(items)@.len(),
        final(items)@.to_multiset() == old(items)@.to_multiset(),
{
    items.shuffle(rng)
}

} // verus!
