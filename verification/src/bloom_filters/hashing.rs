//! Index derivation by double hashing: two seeded 64-bit hashes of a value
//! stand in for any number of hash functions.

use vstd::arithmetic::div_mod::{
    lemma_add_mod_noop, lemma_fundamental_div_mod_converse_mod, lemma_small_mod,
};
use vstd::prelude::*;

verus! {

/// Seed of the first base hash.
pub const SEED_A: u64 = 0;

/// Seed of the second base hash.
pub const SEED_B: u64 = 64;

/// The 64-bit XXH3 hash of `input` under `seed`.
pub uninterp spec fn xxh3_64(input: Seq<u8>, seed: u64) -> u64;

/// Trusted: `xxhash_rust::xxh3::xxh3_64_with_seed` is a function of the
/// bytes and the seed alone; its result is the value named `xxh3_64`.
#[verifier::external_body]
pub(crate) fn xxh3_64_with_seed(input: &[u8], seed: u64) -> (h: u64)
    ensures
        h == xxh3_64(input@, seed),
{
    xxhash_rust::xxh3::xxh3_64_with_seed(input, seed)
}

/// A base hash of `value`, reduced to `[0, size)`.
pub open spec fn base_hash(value: Seq<u8>, seed: u64, size: nat) -> nat
    recommends
        size > 0,
{
    xxh3_64(value, seed) as nat % size
}

/// The `i`-th index derived from two base hashes: `(h1 + i * h2) mod size`.
pub open spec fn derived_index(hash1: nat, hash2: nat, i: nat, size: nat) -> nat
    recommends
        size > 0,
{
    (hash1 + i * hash2) % size
}

/// The index in `[0, size)` that the `i`-th derived hash function gives to
/// `value`.
pub open spec fn index_of(value: Seq<u8>, i: nat, size: nat) -> nat
    recommends
        size > 0,
{
    derived_index(base_hash(value, SEED_A, size), base_hash(value, SEED_B, size), i, size)
}

/// Reduces a raw 64-bit hash to `[0, size)`.
pub fn reduce(raw: u64, size: u64) -> (h: u64)
    requires
        size > 0,
    ensures
        h == raw as nat % size as nat,
        h < size,
{
    raw % size
}

/// The two base hashes of `value`, each reduced to `[0, size)`.
pub fn base_hashes(value: &[u8], size: u64) -> (h: (u64, u64))
    requires
        size > 0,
    ensures
        h.0 == base_hash(value@, SEED_A, size as nat),
        h.1 == base_hash(value@, SEED_B, size as nat),
        h.0 < size,
        h.1 < size,
{
    let raw1: u64 = xxh3_64_with_seed(value, SEED_A);
    let raw2: u64 = xxh3_64_with_seed(value, SEED_B);
    (reduce(raw1, size), reduce(raw2, size))
}

/// The `i`-th derived index from two base hashes.
pub fn derive_index(hash1: u64, hash2: u64, i: u64, size: u64) -> (idx: u64)
    requires
        size > 0,
        hash1 + i * hash2 <= u64::MAX,
    ensures
        idx == derived_index(hash1 as nat, hash2 as nat, i as nat, size as nat),
        idx < size,
{
    assert(i * hash2 <= u64::MAX) by (nonlinear_arith)
        requires
            hash1 + i * hash2 <= u64::MAX,
            hash1 >= 0,
    ;
    (hash1 + i * hash2) % size
}

/// Derived indices stay inside the index space.
pub proof fn lemma_index_in_range(value: Seq<u8>, i: nat, size: nat)
    requires
        size > 0,
    ensures
        index_of(value, i, size) < size,
{
}

/// With base hashes below `size`, the sum that the `i`-th index is taken
/// from is below `(i + 1) * size`.
pub proof fn lemma_sum_bound(hash1: nat, hash2: nat, i: nat, size: nat)
    requires
        hash1 < size,
        hash2 < size,
    ensures
        hash1 + i * hash2 < (i + 1) * size,
{
    assert(i * hash2 <= i * size) by (nonlinear_arith)
        requires
            hash2 < size,
    ;
    assert((i + 1) * size == i * size + size) by (nonlinear_arith);
}

/// The index after `idx` in the sequence of derived indices: one more
/// `hash2`, reduced to `[0, size)`. No intermediate value exceeds `size`.
pub fn next_index(idx: u64, hash2: u64, size: u64) -> (next: u64)
    requires
        idx < size,
        hash2 < size,
    ensures
        next == (idx + hash2) % size as int,
        next < size,
{
    let room: u64 = size - hash2;
    if idx >= room {
        proof {
            lemma_fundamental_div_mod_converse_mod(
                idx + hash2,
                size as int,
                1,
                idx + hash2 - size,
            );
        }
        idx - room
    } else {
        proof {
            lemma_small_mod((idx + hash2) as nat, size as nat);
        }
        idx + hash2
    }
}

/// Each derived index is the one before it plus the second base hash,
/// modulo `size`.
pub proof fn lemma_derived_index_step(hash1: nat, hash2: nat, i: nat, size: nat)
    requires
        size > 0,
        hash2 < size,
    ensures
        derived_index(hash1, hash2, i + 1, size) == (derived_index(hash1, hash2, i, size) + hash2)
            % size,
{
    assert((i + 1) * hash2 == i * hash2 + hash2) by (nonlinear_arith);
    lemma_small_mod(hash2, size);
    lemma_add_mod_noop((hash1 + i * hash2) as int, hash2 as int, size as int);
}

/// The first `k` derived indices of `value` in `[0, size)`, from two hash
/// evaluations.
pub fn indices(value: &[u8], k: u64, size: u64) -> (out: Vec<u64>)
    requires
        size > 0,
    ensures
        out@.len() == k,
        forall|i: int| 0 <= i < k ==> out@[i] == index_of(value@, i as nat, size as nat),
        forall|i: int| 0 <= i < k ==> out@[i] < size,
{
    let (hash1, hash2) = base_hashes(value, size);
    let mut out: Vec<u64> = Vec::new();
    let mut idx: u64 = hash1;
    let mut i: u64 = 0;
    proof {
        lemma_small_mod(hash1 as nat, size as nat);
    }
    while i < k
        invariant
            i <= k,
            size > 0,
            hash1 == base_hash(value@, SEED_A, size as nat),
            hash2 == base_hash(value@, SEED_B, size as nat),
            hash2 < size,
            idx == index_of(value@, i as nat, size as nat),
            idx < size,
            out@.len() == i,
            forall|j: int| 0 <= j < i ==> out@[j] == index_of(value@, j as nat, size as nat),
            forall|j: int| 0 <= j < i ==> out@[j] < size,
        decreases k - i,
    {
        out.push(idx);
        proof {
            lemma_derived_index_step(hash1 as nat, hash2 as nat, i as nat, size as nat);
        }
        idx = next_index(idx, hash2, size);
        i = i + 1;
    }
    out
}

/// Deterministic indexing: two index computations for the same value, the
/// same count and the same index space give the same indices, each inside
/// the index space.
pub proof fn lemma_indexing_deterministic(
    first: Seq<u64>,
    second: Seq<u64>,
    value: Seq<u8>,
    k: nat,
    size: nat,
)
    requires
        size > 0,
        first.len() == k,
        second.len() == k,
        forall|i: int| 0 <= i < k ==> first[i] == index_of(value, i as nat, size),
        forall|i: int| 0 <= i < k ==> second[i] == index_of(value, i as nat, size),
    ensures
        first == second,
        forall|i: int| 0 <= i < k ==> first[i] < size,
{
    assert(first =~= second);
    assert forall|i: int| 0 <= i < k implies first[i] < size by {
        lemma_index_in_range(value, i as nat, size);
    }
}

} // verus!
