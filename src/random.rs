//! The library's source of randomness: a seeded PCG generator, seeded from
//! operating-system entropy unless a seed is given.

use vstd::prelude::*;

verus! {

/// The weight of bit `i` of a seed: `2^i`.
pub open spec fn bit_value(i: nat) -> nat
    decreases i,
{
    if i == 0 {
        1
    } else {
        2 * bit_value((i - 1) as nat)
    }
}

/// The seed read from a buffer of entropy bytes: bit `i` is set exactly when
/// byte `i` has its high bit set (is above 127).
pub open spec fn entropy_seed(bytes: Seq<u8>) -> nat
    decreases bytes.len(),
{
    if bytes.len() == 0 {
        0
    } else {
        let i = (bytes.len() - 1) as nat;
        entropy_seed(bytes.take(i as int)) + if bytes[i as int] > 127 {
            bit_value(i)
        } else {
            0
        }
    }
}

/// Number of entropy bytes read to seed a generator: one per bit of the seed.
pub const ENTROPY_BYTES: usize = 32;

/// Folds entropy bytes into a 32-bit seed, one bit per byte.
pub fn seed_from_entropy(bytes: &Vec<u8>) -> (seed: u32)
    requires
        bytes.len() <= ENTROPY_BYTES,
    ensures
        seed == entropy_seed(bytes@),
{
    let mut seed: u32 = 0;
    let mut bit: u64 = 1;
    let mut i: usize = 0;
    while i < bytes.len()
        invariant
            i <= bytes.len() <= ENTROPY_BYTES,
            bit == bit_value(i as nat),
            seed == entropy_seed(bytes@.take(i as int)),
            seed < bit,
        decreases bytes.len() - i,
    {
        proof {
            assert(bytes@.take(i as int + 1).take(i as int) == bytes@.take(i as int));
            lemma_bit_value_bound(i as nat);
        }
        if bytes[i] > 127 {
            seed = seed + bit as u32;
        }
        bit = bit * 2;
        i = i + 1;
    }
    assert(bytes@.take(i as int) == bytes@);
    seed
}

proof fn lemma_bit_value_bound(i: nat)
    requires
        i < 32,
    ensures
        bit_value(i) <= 0x8000_0000,
{
    reveal_with_fuel(bit_value, 32);
    assert(bit_value(31) == 0x8000_0000);
    lemma_bit_value_monotone(i, 31);
}

proof fn lemma_bit_value_monotone(i: nat, j: nat)
    requires
        i <= j,
    ensures
        bit_value(i) <= bit_value(j),
    decreases j,
{
    if i < j {
        lemma_bit_value_monotone(i, (j - 1) as nat);
    }
}

/// Relies on `getrandom::getrandom`: fills the buffer with operating-system
/// entropy and reports whether that worked. The buffer keeps its length.
#[verifier::external_body]
fn fill_entropy(buffer: &mut Vec<u8>) -> (filled: bool)
    ensures
        final(buffer)@.len() == old(buffer)@.len(),
{
    getrandom::getrandom(buffer.as_mut_slice()).is_ok()
}

/// A pseudo-random source: deterministic once seeded.
pub struct Random {
    pub generator: oorandom::Rand32,
}

impl Random {
    /// A generator seeded from operating-system entropy: 32 bytes, folded
    /// into a seed by `seed_from_entropy`. Whether the entropy source worked
    /// is not checked; the seed is read from the buffer either way.
    pub fn new() -> (r: Self) {
        let mut buffer: Vec<u8> = vec![0u8; ENTROPY_BYTES];
        let _filled = fill_entropy(&mut buffer);
        let seed = seed_from_entropy(&buffer);
        Random { generator: oorandom::Rand32::new(seed as u64) }
    }

    /// Replaces the generator by one started from `seed`.
    pub fn with_seed(self, seed: u64) -> (r: Self) {
        Random { generator: oorandom::Rand32::new(seed) }
    }

    /// A draw over the whole `u32` range.
    pub fn rand_u32(&mut self) -> (r: u32) {
        self.generator.rand_u32()
    }

    /// A draw over the whole `i32` range.
    pub fn rand_i32(&mut self) -> (r: i32) {
        self.generator.rand_i32()
    }

    /// A draw over the `u32` range, widened to `usize`.
    pub fn rand_usize(&mut self) -> (r: usize)
        ensures
            r <= u32::MAX,
    {
        self.generator.rand_u32() as usize
    }

    /// A draw over the `i32` range, widened to `isize`.
    pub fn rand_isize(&mut self) -> (r: isize)
        ensures
            i32::MIN <= r <= i32::MAX,
    {
        self.generator.rand_i32() as isize
    }

    /// A draw from `[range.start, range.end)`; the range must not be empty.
    pub fn rand_range(&mut self, range: core::ops::Range<u32>) -> (r: u32)
        requires
            range.start < range.end,
        ensures
            range.start <= r < range.end,
    {
        self.generator.rand_range(range)
    }
}

} // verus!
