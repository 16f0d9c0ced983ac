//! The classical filter: all derived hash functions share one bit array.

use crate::bloom_filters::base::{ConstructionError, Filter};
use crate::bloom_filters::bit_array::{bits, from_elem, get_bit, set_bit};
use crate::bloom_filters::hashing::{
    base_hash, base_hashes, index_of, lemma_derived_index_step, next_index, SEED_A, SEED_B,
};
use bit_vec::BitVec;
use vstd::arithmetic::div_mod::lemma_small_mod;
use vstd::prelude::*;

verus! {

/// Whether one of the first `k` derived indices of `value` is `j`.
pub open spec fn probes(value: Seq<u8>, k: nat, size: nat, j: int) -> bool {
    exists|i: nat| i < k && #[trigger] index_of(value, i, size) == j
}

/// Whether the array has the bit set at each of the first `k` derived
/// indices of `value`.
pub open spec fn all_probes_set(array: Seq<bool>, value: Seq<u8>, k: nat) -> bool {
    forall|i: nat| i < k ==> array[#[trigger] index_of(value, i, array.len()) as int]
}

/// The array after `value` has been inserted: the bits at its first `k`
/// derived indices are set, the others are as they were.
pub open spec fn with_probes(array: Seq<bool>, value: Seq<u8>, k: nat) -> Seq<bool> {
    Seq::new(array.len(), |j: int| array[j] || probes(value, k, array.len(), j))
}

/// The array after each of `values` has been inserted, first to last.
pub open spec fn with_all_probes(array: Seq<bool>, values: Seq<Seq<u8>>, k: nat) -> Seq<bool>
    decreases values.len(),
{
    if values.len() == 0 {
        array
    } else {
        with_probes(with_all_probes(array, values.drop_last(), k), values.last(), k)
    }
}

/// A filter of one bit array that all derived hash functions share. Its
/// view is the bits of that array.
pub struct ClassicalBloomFilter {
    /// number of hash functions
    k: u64,
    /// number of bits
    m: usize,
    /// the bits that all hash functions share
    array: BitVec,
}

impl View for ClassicalBloomFilter {
    type V = Seq<bool>;

    /// The bits of the shared array.
    closed spec fn view(&self) -> Seq<bool> {
        bits(self.array)
    }
}

impl ClassicalBloomFilter {
    /// The number of hash functions.
    pub closed spec fn hash_count(&self) -> nat {
        self.k as nat
    }

    /// The number of bits, as recorded at construction.
    pub closed spec fn bit_count(&self) -> nat {
        self.m as nat
    }
}

impl Filter for ClassicalBloomFilter {
    /// The invariant of a filter: at least one hash function and at least
    /// one bit, as many bits as recorded.
    open spec fn wf(&self) -> bool {
        &&& self.hash_count() >= 1
        &&& self@.len() >= 1
        &&& self@.len() == self.bit_count()
        &&& self.bit_count() <= usize::MAX
    }

    /// Whether the filter answers that `value` may have been inserted.
    open spec fn contains(&self, value: Seq<u8>) -> bool {
        all_probes_set(self@, value, self.hash_count())
    }

    /// The number of bits.
    open spec fn size(&self) -> nat {
        self@.len()
    }

    /// A filter is refused where it would have no bits or no hash
    /// functions, and where its bit count does not fit the address space.
    open spec fn refusal(m: u64, k: u64) -> Option<ConstructionError> {
        if m == 0 {
            Some(ConstructionError::ZeroBits)
        } else if k == 0 {
            Some(ConstructionError::ZeroHashes)
        } else if m > usize::MAX {
            Some(ConstructionError::TooLarge)
        } else {
            None
        }
    }

    /// Builds an empty filter of `m` bits that `k` derived hash functions
    /// share.
    fn new(m: u64, k: u64) -> (r: Result<Self, ConstructionError>)
        ensures
            r matches Ok(filter) ==> filter.hash_count() == k,
            r matches Ok(filter) ==> filter@ == Seq::new(m as nat, |j: int| false),
    {
        if m == 0 {
            return Err(ConstructionError::ZeroBits);
        }
        if k == 0 {
            return Err(ConstructionError::ZeroHashes);
        }
        if m > usize::MAX as u64 {
            return Err(ConstructionError::TooLarge);
        }
        let filter = ClassicalBloomFilter { k, m: m as usize, array: from_elem(m as usize, false) };
        assert forall|value: Seq<u8>| !filter.contains(value) by {
            lemma_empty_answers_no(value, k as nat, m as nat);
        }
        Ok(filter)
    }

    /// Inserts `value`: sets the bit at each derived index.
    fn insert(&mut self, value: &[u8])
        ensures
            final(self).hash_count() == old(self).hash_count(),
            final(self)@ == with_probes(old(self)@, value@, old(self).hash_count()),
            old(self).contains(value@) ==> final(self)@ == old(self)@,
    {
        let size: u64 = self.m as u64;
        let (hash1, hash2) = base_hashes(value, size);
        let mut idx: u64 = hash1;
        let mut i: u64 = 0;
        proof {
            lemma_small_mod(hash1 as nat, size as nat);
        }
        while i < self.k
            invariant
                i <= self.k,
                self.k == old(self).k,
                self.m == old(self).m,
                size == self.m,
                old(self).wf(),
                hash1 == base_hash(value@, SEED_A, size as nat),
                hash2 == base_hash(value@, SEED_B, size as nat),
                hash2 < size,
                idx == index_of(value@, i as nat, size as nat),
                idx < size,
                bits(self.array) == with_probes(old(self)@, value@, i as nat),
            decreases self.k - i,
        {
            proof {
                lemma_with_probes_step(old(self)@, value@, i as nat);
                lemma_derived_index_step(hash1 as nat, hash2 as nat, i as nat, size as nat);
            }
            set_bit(&mut self.array, idx as usize, true);
            idx = next_index(idx, hash2, size);
            i = i + 1;
        }
        proof {
            let k = self.k as nat;
            lemma_with_probes_sets(old(self)@, value@, k);
            assert forall|other: Seq<u8>| old(self).contains(other) implies self.contains(
                other,
            ) by {
                lemma_with_probes_keeps(old(self)@, value@, other, k);
            }
            if old(self).contains(value@) {
                lemma_with_probes_present(old(self)@, value@, k);
            }
        }
    }

    /// Whether `value` may have been inserted: true where the bit at every
    /// derived index is set, false as soon as one is not.
    fn lookup(&self, value: &[u8]) -> (found: bool) {
        let size: u64 = self.m as u64;
        let (hash1, hash2) = base_hashes(value, size);
        let mut idx: u64 = hash1;
        let mut i: u64 = 0;
        proof {
            lemma_small_mod(hash1 as nat, size as nat);
        }
        while i < self.k
            invariant
                i <= self.k,
                size == self.m,
                self.wf(),
                hash1 == base_hash(value@, SEED_A, size as nat),
                hash2 == base_hash(value@, SEED_B, size as nat),
                hash2 < size,
                idx == index_of(value@, i as nat, size as nat),
                idx < size,
                all_probes_set(self@, value@, i as nat),
            decreases self.k - i,
        {
            if get_bit(&self.array, idx as usize) == Some(false) {
                assert(!self@[index_of(value@, i as nat, self@.len()) as int]);
                return false;
            }
            proof {
                lemma_derived_index_step(hash1 as nat, hash2 as nat, i as nat, size as nat);
            }
            idx = next_index(idx, hash2, size);
            i = i + 1;
        }
        true
    }

    /// The number of bits.
    fn get_size(&self) -> (n: usize) {
        self.m
    }
}

/// An empty array answers no for every value.
pub proof fn lemma_empty_answers_no(value: Seq<u8>, k: nat, m: nat)
    requires
        k >= 1,
        m > 0,
    ensures
        !all_probes_set(Seq::new(m, |j: int| false), value, k),
{
    let array = Seq::new(m, |j: int| false);
    assert(index_of(value, 0, m) < m);
    assert(!array[index_of(value, 0, array.len()) as int]);
}

/// Setting the bit at the next derived index extends the insertion by one
/// hash function.
pub proof fn lemma_with_probes_step(array: Seq<bool>, value: Seq<u8>, i: nat)
    requires
        array.len() > 0,
    ensures
        with_probes(array, value, i).update(index_of(value, i, array.len()) as int, true)
            == with_probes(array, value, i + 1),
{
    let size = array.len();
    let idx = index_of(value, i, size) as int;
    let left = with_probes(array, value, i).update(idx, true);
    let right = with_probes(array, value, i + 1);
    assert(idx < size);
    assert forall|j: int| 0 <= j < size implies left[j] == right[j] by {
        if probes(value, i + 1, size, j) {
            let w = choose|w: nat| w < i + 1 && #[trigger] index_of(value, w, size) == j;
            if w < i {
                assert(probes(value, i, size, j));
            }
        }
        if probes(value, i, size, j) {
            let w = choose|w: nat| w < i && #[trigger] index_of(value, w, size) == j;
            assert(w < i + 1);
            assert(probes(value, i + 1, size, j));
        }
        if j == idx {
            assert(index_of(value, i, size) == j);
            assert(probes(value, i + 1, size, j));
        }
    }
    assert(left =~= right);
}

/// Right after a value is inserted, the bit at each of its indices is set.
pub proof fn lemma_with_probes_sets(array: Seq<bool>, value: Seq<u8>, k: nat)
    requires
        array.len() > 0,
    ensures
        all_probes_set(with_probes(array, value, k), value, k),
{
    let size = array.len();
    let after = with_probes(array, value, k);
    assert forall|i: nat| i < k implies after[#[trigger] index_of(value, i, after.len()) as int] by {
        assert(index_of(value, i, size) < size);
        assert(probes(value, k, size, index_of(value, i, size) as int));
    }
}

/// A value that the array answers for is still answered for after another
/// value is inserted.
pub proof fn lemma_with_probes_keeps(array: Seq<bool>, value: Seq<u8>, other: Seq<u8>, k: nat)
    requires
        array.len() > 0,
        all_probes_set(array, other, k),
    ensures
        all_probes_set(with_probes(array, value, k), other, k),
{
    let size = array.len();
    let after = with_probes(array, value, k);
    assert forall|i: nat| i < k implies after[#[trigger] index_of(other, i, after.len()) as int] by {
        assert(index_of(other, i, size) < size);
        assert(array[index_of(other, i, size) as int]);
    }
}

/// Inserting a value that the array already answers for changes nothing.
pub proof fn lemma_with_probes_present(array: Seq<bool>, value: Seq<u8>, k: nat)
    requires
        array.len() > 0,
        all_probes_set(array, value, k),
    ensures
        with_probes(array, value, k) == array,
{
    let size = array.len();
    let after = with_probes(array, value, k);
    assert forall|j: int| 0 <= j < size implies after[j] == array[j] by {
        if probes(value, k, size, j) {
            let w = choose|w: nat| w < k && #[trigger] index_of(value, w, size) == j;
            assert(array[index_of(value, w, size) as int]);
        }
    }
    assert(after =~= array);
}

/// Idempotence: inserting a value a second time leaves the array as the
/// first insertion left it, so no later lookup can tell the difference.
pub proof fn lemma_insert_idempotent(array: Seq<bool>, value: Seq<u8>, k: nat)
    requires
        array.len() > 0,
    ensures
        with_probes(with_probes(array, value, k), value, k) == with_probes(array, value, k),
{
    lemma_with_probes_sets(array, value, k);
    lemma_with_probes_present(with_probes(array, value, k), value, k);
}

/// Any run of insertions keeps the length of the array.
pub proof fn lemma_with_all_probes_len(array: Seq<bool>, values: Seq<Seq<u8>>, k: nat)
    ensures
        with_all_probes(array, values, k).len() == array.len(),
    decreases values.len(),
{
    if values.len() > 0 {
        lemma_with_all_probes_len(array, values.drop_last(), k);
    }
}

/// Monotonicity: a value that the filter answers yes for is answered yes
/// for after any run of further insertions.
pub proof fn lemma_answers_never_shrink(
    array: Seq<bool>,
    values: Seq<Seq<u8>>,
    other: Seq<u8>,
    k: nat,
)
    requires
        array.len() > 0,
        all_probes_set(array, other, k),
    ensures
        all_probes_set(with_all_probes(array, values, k), other, k),
    decreases values.len(),
{
    if values.len() > 0 {
        lemma_answers_never_shrink(array, values.drop_last(), other, k);
        lemma_with_all_probes_len(array, values.drop_last(), k);
        lemma_with_probes_keeps(
            with_all_probes(array, values.drop_last(), k),
            values.last(),
            other,
            k,
        );
    }
}

/// No false negatives: after a run of insertions, each inserted value is
/// answered yes for, whatever was inserted after it.
pub proof fn lemma_no_false_negatives(array: Seq<bool>, values: Seq<Seq<u8>>, j: int, k: nat)
    requires
        array.len() > 0,
        0 <= j < values.len(),
    ensures
        all_probes_set(with_all_probes(array, values, k), values[j], k),
    decreases values.len(),
{
    let before = with_all_probes(array, values.drop_last(), k);
    lemma_with_all_probes_len(array, values.drop_last(), k);
    if j == values.len() - 1 {
        lemma_with_probes_sets(before, values.last(), k);
    } else {
        lemma_no_false_negatives(array, values.drop_last(), j, k);
        lemma_with_probes_keeps(before, values.last(), values[j], k);
    }
}

} // verus!
