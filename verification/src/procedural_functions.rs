//! Seeds and random draws for the procedural generators.

use rand::rngs::StdRng;
use rand::seq::SliceRandom;
use rand::{Rng, SeedableRng};
use std::collections::hash_map::DefaultHasher;
use std::hash::Hasher;
use vstd::bytes::{spec_u64_to_le_bytes, u64_to_le_bytes};
use vstd::prelude::*;
use vstd::std_specs::hash::DefaultHasherAdditionalSpecFns;

verus! {

/// The byte strings fed to the hasher for a list of words: each word as its
/// eight little-endian bytes, in order.
pub open spec fn hashed_words(words: Seq<u64>) -> Seq<Seq<u8>> {
    words.map_values(|w: u64| spec_u64_to_le_bytes(w))
}

/// The seed derived from a base seed and further data: the digest of the
/// base seed followed by each datum.
pub open spec fn seed_of(base_seed: u64, additional_data: Seq<u64>) -> u64 {
    DefaultHasher::spec_finish(hashed_words(seq![base_seed] + additional_data))
}

/// Derives a seed from `base_seed` and `additional_data` by hashing them in
/// order with the standard library's default hasher.
pub fn generate_seed(base_seed: u64, additional_data: Vec<u64>) -> (seed: u64)
    ensures
        seed == seed_of(base_seed, additional_data@),
{
    let ghost words = seq![base_seed] + additional_data@;
    let mut s = DefaultHasher::new();
    let first = u64_to_le_bytes(base_seed);
    s.write(first.as_slice());
    let mut i: usize = 0;
    while i < additional_data.len()
        invariant
            i <= additional_data.len(),
            words == seq![base_seed] + additional_data@,
            s@ == hashed_words(words.take(i + 1)),
        decreases additional_data.len() - i,
    {
        let next = u64_to_le_bytes(additional_data[i]);
        s.write(next.as_slice());
        i += 1;
    }
    assert(words.take(i + 1) =~= words);
    s.finish()
}

/// Makes `rand::rngs::StdRng` known as a type whose inside is not looked
/// at.
#[verifier::external_type_specification]
#[verifier::external_body]
pub struct ExStdRng(StdRng);

/// Calls `StdRng::seed_from_u64`. Nothing is claimed of the generator.
#[verifier::external_body]
fn seeded_rng(seed: u64) -> (rng: StdRng) {
    StdRng::seed_from_u64(seed)
}

/// Calls `Rng::gen_range` on the half-open range from `low` to `high`,
/// which panics where the range is empty. The contract claims that the
/// value drawn lies in the range.
#[verifier::external_body]
fn draw_in_range(rng: &mut StdRng, low: i32, high: i32) -> (value: i32)
    requires
        low < high,
    ensures
        low <= value < high,
{
    rng.gen_range(low..high)
}

/// Calls `SliceRandom::shuffle`, which only swaps elements. The contract
/// claims that afterwards the list holds the same values, each as often as
/// before.
#[verifier::external_body]
fn shuffle_values(values: &mut Vec<usize>, rng: &mut StdRng)
    ensures
        final(values)@.to_multiset() == old(values)@.to_multiset(),
{
    values.shuffle(rng);
}

/// A machine-sized number cut down to its low 32 bits and read as a signed
/// number.
pub open spec fn low_bits(value: usize) -> i32 {
    #[verifier::truncate]
    (value as i32)
}

/// Draws `amount` values from a generator seeded with `seed`, each at
/// least `low` and less than `high`, both cut down to 32 bits.
pub fn generate_random_values(seed: u64, amount: usize, low: usize, high: usize) -> (values: Vec<
    i32,
>)
    requires
        amount > 0 ==> low_bits(low) < low_bits(high),
    ensures
        values.len() == amount,
        forall|i: int| 0 <= i < amount ==> low_bits(low) <= #[trigger] values[i] < low_bits(high),
{
    let mut values: Vec<i32> = Vec::new();
    if amount == 0 {
        return values;
    }
    let mut rand = seeded_rng(seed);
    let from: i32 = #[verifier::truncate]
    (low as i32);
    let to: i32 = #[verifier::truncate]
    (high as i32);
    let mut n: usize = 0;
    while n < amount
        invariant
            n <= amount,
            from == low_bits(low),
            to == low_bits(high),
            from < to,
            values.len() == n,
            forall|i: int| 0 <= i < n ==> from <= #[trigger] values[i] < to,
        decreases amount - n,
    {
        let value = draw_in_range(&mut rand, from, to);
        values.push(value);
        n += 1;
    }
    values
}

/// Number of distinct values in a permutation table.
pub const PERMUTATION_SIZE: usize = 256;

/// The numbers from 0 up to `n`, in order.
pub open spec fn counting(n: nat) -> Seq<usize> {
    Seq::new(n, |i: int| i as usize)
}

/// A permutation table for gradient noise: the numbers below 256 in an
/// order drawn from a generator seeded with `seed`, twice over.
pub fn generate_perlin_hash_table(seed: u64) -> (table: [usize; 512])
    ensures
        table@.subrange(0, PERMUTATION_SIZE as int).to_multiset() == counting(
            PERMUTATION_SIZE as nat,
        ).to_multiset(),
        forall|i: int|
            0 <= i < PERMUTATION_SIZE ==> #[trigger] table[i + PERMUTATION_SIZE] == table[i],
{
    let mut rand = seeded_rng(seed);
    let mut vals: Vec<usize> = Vec::new();
    let mut i: usize = 0;
    while i < PERMUTATION_SIZE
        invariant
            i <= PERMUTATION_SIZE,
            vals@ == counting(i as nat),
        decreases PERMUTATION_SIZE - i,
    {
        vals.push(i);
        i += 1;
    }
    shuffle_values(&mut vals, &mut rand);
    proof {
        vals@.to_multiset_ensures();
        counting(PERMUTATION_SIZE as nat).to_multiset_ensures();
    }
    let mut hash_table: [usize; 512] = [0; 512];
    let mut k: usize = 0;
    while k < PERMUTATION_SIZE
        invariant
            k <= PERMUTATION_SIZE,
            vals.len() == PERMUTATION_SIZE,
            forall|j: int| 0 <= j < k ==> #[trigger] hash_table[j] == vals[j],
            forall|j: int| 0 <= j < k ==> #[trigger] hash_table[j + PERMUTATION_SIZE] == vals[j],
        decreases PERMUTATION_SIZE - k,
    {
        hash_table[k] = vals[k];
        hash_table[k + 256] = vals[k];
        k += 1;
    }
    assert(hash_table@.subrange(0, PERMUTATION_SIZE as int) =~= vals@);
    hash_table
}

} // verus!
