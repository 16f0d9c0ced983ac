//! The partitioned filter: every derived hash function owns a bit array of
//! its own.

use crate::bloom_filters::base::{ConstructionError, Filter};
use crate::bloom_filters::bit_array::{bits, from_elem, get_bit, set_bit};
use crate::bloom_filters::hashing::{
    base_hash, base_hashes, derive_index, index_of, lemma_sum_bound, SEED_A, SEED_B,
};
use bit_vec::BitVec;
use vstd::prelude::*;

verus! {

/// A partition layout with every bit clear: `k` arrays of `size` bits.
pub open spec fn empty_partitions(k: nat, size: nat) -> Seq<Seq<bool>> {
    Seq::new(k, |i: int| Seq::new(size, |j: int| false))
}

/// Whether every partition has its bit for `value` set.
pub open spec fn all_set(parts: Seq<Seq<bool>>, value: Seq<u8>, size: nat) -> bool {
    forall|i: int| 0 <= i < parts.len() ==> (#[trigger] parts[i])[index_of(value, i as nat, size) as int]
}

/// The partitions after `value` has been inserted: partition `i` gains the
/// bit at the `i`-th derived index and is otherwise unchanged.
pub open spec fn with_value(parts: Seq<Seq<bool>>, value: Seq<u8>, size: nat) -> Seq<Seq<bool>> {
    Seq::new(parts.len(), |i: int| parts[i].update(index_of(value, i as nat, size) as int, true))
}

/// Whether `parts` is a layout of `k` partitions of `size` bits each.
pub open spec fn well_shaped(parts: Seq<Seq<bool>>, k: nat, size: nat) -> bool {
    &&& parts.len() == k
    &&& forall|i: int| 0 <= i < parts.len() ==> (#[trigger] parts[i]).len() == size
}

/// The partitions after each of `values` has been inserted, first to last.
pub open spec fn with_values(parts: Seq<Seq<bool>>, values: Seq<Seq<u8>>, size: nat) -> Seq<
    Seq<bool>,
>
    decreases values.len(),
{
    if values.len() == 0 {
        parts
    } else {
        with_value(with_values(parts, values.drop_last(), size), values.last(), size)
    }
}

/// A filter of `k` bit arrays of equal size, one for each derived hash
/// function. Its view is the partitions, each as its sequence of bits.
pub struct PartitionedBloomFilter {
    /// number of hash functions
    k: u64,
    /// number of bits in each partition
    partition_size: usize,
    /// one bit array for each hash function
    partitions: Vec<BitVec>,
}

impl View for PartitionedBloomFilter {
    type V = Seq<Seq<bool>>;

    /// The partitions, each as its sequence of bits.
    closed spec fn view(&self) -> Seq<Seq<bool>> {
        Seq::new(self.partitions@.len(), |i: int| bits(self.partitions@[i]))
    }
}

impl PartitionedBloomFilter {
    /// The number of hash functions, which is the number of partitions.
    pub closed spec fn hash_count(&self) -> nat {
        self.k as nat
    }

    /// The number of bits in each partition.
    pub closed spec fn partition_size(&self) -> nat {
        self.partition_size as nat
    }
}

impl Filter for PartitionedBloomFilter {
    /// The invariant of a filter: at least one partition, at least one bit
    /// in each, all partitions of the same size, and no more bits in all
    /// than a 64-bit count can hold.
    open spec fn wf(&self) -> bool {
        &&& self.hash_count() >= 1
        &&& self.partition_size() >= 1
        &&& self.hash_count() * self.partition_size() <= u64::MAX
        &&& self.hash_count() <= usize::MAX
        &&& self.partition_size() <= usize::MAX
        &&& well_shaped(self@, self.hash_count(), self.partition_size())
    }

    /// Whether the filter answers that `value` may have been inserted.
    open spec fn contains(&self, value: Seq<u8>) -> bool {
        all_set(self@, value, self.partition_size())
    }

    /// The number of partitions.
    open spec fn size(&self) -> nat {
        self.hash_count()
    }

    /// A filter is refused where it would have no bits, no hash functions,
    /// or fewer bits than hash functions, and where its partition count or
    /// partition size does not fit the address space.
    open spec fn refusal(m: u64, k: u64) -> Option<ConstructionError> {
        if m == 0 {
            Some(ConstructionError::ZeroBits)
        } else if k == 0 {
            Some(ConstructionError::ZeroHashes)
        } else if m < k {
            Some(ConstructionError::EmptyPartition)
        } else if k > usize::MAX || m / k > usize::MAX {
            Some(ConstructionError::TooLarge)
        } else {
            None
        }
    }

    /// Builds an empty filter of `k` partitions of `m / k` bits each, from
    /// the bit count `m` and the hash count `k` that the expected number of
    /// elements and the target false-positive rate give.
    fn new(m: u64, k: u64) -> (r: Result<Self, ConstructionError>)
        ensures
            r matches Ok(filter) ==> filter.hash_count() == k,
            r matches Ok(filter) ==> filter.partition_size() == m / k,
            r matches Ok(filter) ==> filter@ == empty_partitions(k as nat, (m / k) as nat),
    {
        if m == 0 {
            return Err(ConstructionError::ZeroBits);
        }
        if k == 0 {
            return Err(ConstructionError::ZeroHashes);
        }
        if m < k {
            return Err(ConstructionError::EmptyPartition);
        }
        let size: u64 = m / k;
        if k > usize::MAX as u64 || size > usize::MAX as u64 {
            return Err(ConstructionError::TooLarge);
        }
        assert(size >= 1 && k * size <= m) by (nonlinear_arith)
            requires
                size == m / k,
                k >= 1,
                m >= k,
        ;
        let partition_size: usize = size as usize;
        let mut partitions: Vec<BitVec> = Vec::new();
        let mut i: u64 = 0;
        while i < k
            invariant
                i <= k,
                partitions@.len() == i,
                forall|j: int|
                    0 <= j < i ==> bits(#[trigger] partitions@[j]) == Seq::new(
                        partition_size as nat,
                        |b: int| false,
                    ),
            decreases k - i,
        {
            partitions.push(from_elem(partition_size, false));
            i = i + 1;
        }
        let filter = PartitionedBloomFilter { k, partition_size, partitions };
        assert(filter@ =~= empty_partitions(k as nat, (m / k) as nat));
        assert forall|value: Seq<u8>| !filter.contains(value) by {
            lemma_empty_answers_no(value, k as nat, partition_size as nat);
        }
        Ok(filter)
    }

    /// Inserts `value`: in each partition, sets the bit at that
    /// partition's derived index.
    fn insert(&mut self, value: &[u8])
        ensures
            final(self).hash_count() == old(self).hash_count(),
            final(self).partition_size() == old(self).partition_size(),
            final(self)@ == with_value(old(self)@, value@, old(self).partition_size()),
            old(self).contains(value@) ==> final(self)@ == old(self)@,
    {
        let size: u64 = self.partition_size as u64;
        let (hash1, hash2) = base_hashes(value, size);
        let mut i: u64 = 0;
        while i < self.k
            invariant
                i <= self.k,
                self.k == old(self).k,
                self.partition_size == old(self).partition_size,
                size == self.partition_size,
                old(self).wf(),
                hash1 == base_hash(value@, SEED_A, size as nat),
                hash2 == base_hash(value@, SEED_B, size as nat),
                hash1 < size,
                hash2 < size,
                self.partitions@.len() == self.k,
                forall|j: int|
                    0 <= j < i ==> bits(#[trigger] self.partitions@[j]) == old(self)@[j].update(
                        index_of(value@, j as nat, size as nat) as int,
                        true,
                    ),
                forall|j: int|
                    i <= j < self.k ==> bits(#[trigger] self.partitions@[j]) == old(self)@[j],
            decreases self.k - i,
        {
            proof {
                lemma_sum_bound(hash1 as nat, hash2 as nat, i as nat, size as nat);
                assert((i + 1) * size <= self.k * size) by (nonlinear_arith)
                    requires
                        i < self.k,
                        size >= 0,
                ;
            }
            let idx: usize = derive_index(hash1, hash2, i, size) as usize;
            assert(bits(self.partitions@[i as int]) == old(self)@[i as int]);
            set_bit(&mut self.partitions[i as usize], idx, true);
            i = i + 1;
        }
        proof {
            let size_n = old(self).partition_size();
            assert(self@ =~= with_value(old(self)@, value@, size_n));
            lemma_with_value_shape(old(self)@, value@, self.k as nat, size_n);
            lemma_with_value_sets(old(self)@, value@, self.k as nat, size_n);
            assert forall|other: Seq<u8>| old(self).contains(other) implies self.contains(
                other,
            ) by {
                lemma_with_value_keeps(old(self)@, value@, other, self.k as nat, size_n);
            }
            if old(self).contains(value@) {
                lemma_with_value_present(old(self)@, value@, self.k as nat, size_n);
            }
        }
    }

    /// Whether `value` may have been inserted: true where every partition
    /// has the bit at its derived index set, false as soon as one has not.
    fn lookup(&self, value: &[u8]) -> (found: bool) {
        let size: u64 = self.partition_size as u64;
        let (hash1, hash2) = base_hashes(value, size);
        let mut i: u64 = 0;
        while i < self.k
            invariant
                i <= self.k,
                size == self.partition_size,
                self.wf(),
                hash1 == base_hash(value@, SEED_A, size as nat),
                hash2 == base_hash(value@, SEED_B, size as nat),
                hash1 < size,
                hash2 < size,
                forall|j: int|
                    0 <= j < i ==> (#[trigger] self@[j])[index_of(value@, j as nat, size as nat) as int],
            decreases self.k - i,
        {
            proof {
                lemma_sum_bound(hash1 as nat, hash2 as nat, i as nat, size as nat);
                assert((i + 1) * size <= self.k * size) by (nonlinear_arith)
                    requires
                        i < self.k,
                        size >= 0,
                ;
            }
            let idx: usize = derive_index(hash1, hash2, i, size) as usize;
            assert(bits(self.partitions@[i as int]) == self@[i as int]);
            if get_bit(&self.partitions[i as usize], idx) == Some(false) {
                assert(!self@[i as int][index_of(value@, i as nat, size as nat) as int]);
                return false;
            }
            i = i + 1;
        }
        true
    }

    /// The number of partitions.
    fn get_size(&self) -> (n: usize) {
        self.partitions.len()
    }
}

/// Inserting keeps the shape of the partitions.
pub proof fn lemma_with_value_shape(parts: Seq<Seq<bool>>, value: Seq<u8>, k: nat, size: nat)
    requires
        size > 0,
        well_shaped(parts, k, size),
    ensures
        well_shaped(with_value(parts, value, size), k, size),
{
    let after = with_value(parts, value, size);
    assert forall|i: int| 0 <= i < after.len() implies (#[trigger] after[i]).len() == size by {
        assert(parts[i].len() == size);
        assert(index_of(value, i as nat, size) < size);
    }
}

/// Right after a value is inserted, every partition has its bit set.
pub proof fn lemma_with_value_sets(parts: Seq<Seq<bool>>, value: Seq<u8>, k: nat, size: nat)
    requires
        size > 0,
        well_shaped(parts, k, size),
    ensures
        all_set(with_value(parts, value, size), value, size),
{
    let after = with_value(parts, value, size);
    assert forall|i: int| 0 <= i < after.len() implies (#[trigger] after[i])[index_of(
        value,
        i as nat,
        size,
    ) as int] by {
        assert(parts[i].len() == size);
        assert(index_of(value, i as nat, size) < size);
    }
}

/// A value that the partitions answer for is still answered for after
/// another value is inserted.
pub proof fn lemma_with_value_keeps(
    parts: Seq<Seq<bool>>,
    value: Seq<u8>,
    other: Seq<u8>,
    k: nat,
    size: nat,
)
    requires
        size > 0,
        well_shaped(parts, k, size),
        all_set(parts, other, size),
    ensures
        all_set(with_value(parts, value, size), other, size),
{
    let after = with_value(parts, value, size);
    assert forall|i: int| 0 <= i < after.len() implies (#[trigger] after[i])[index_of(
        other,
        i as nat,
        size,
    ) as int] by {
        assert(parts[i].len() == size);
        assert(parts[i][index_of(other, i as nat, size) as int]);
        assert(index_of(value, i as nat, size) < size);
        assert(index_of(other, i as nat, size) < size);
    }
}

/// An empty filter answers no for every value.
pub proof fn lemma_empty_answers_no(value: Seq<u8>, k: nat, size: nat)
    requires
        k >= 1,
        size > 0,
    ensures
        !all_set(empty_partitions(k, size), value, size),
{
    let parts = empty_partitions(k, size);
    assert(index_of(value, 0, size) < size);
    assert(!parts[0][index_of(value, 0, size) as int]);
}

/// Inserting a value that the partitions already answer for changes
/// nothing.
pub proof fn lemma_with_value_present(parts: Seq<Seq<bool>>, value: Seq<u8>, k: nat, size: nat)
    requires
        size > 0,
        well_shaped(parts, k, size),
        all_set(parts, value, size),
    ensures
        with_value(parts, value, size) == parts,
{
    let after = with_value(parts, value, size);
    assert forall|i: int| 0 <= i < parts.len() implies #[trigger] after[i] =~= parts[i] by {
        assert(parts[i].len() == size);
        assert(parts[i][index_of(value, i as nat, size) as int]);
        assert(index_of(value, i as nat, size) < size);
    }
    assert(after =~= parts);
}

/// Idempotence: inserting a value a second time leaves the partitions as
/// the first insertion left them, so no later lookup can tell the
/// difference.
pub proof fn lemma_insert_idempotent(parts: Seq<Seq<bool>>, value: Seq<u8>, k: nat, size: nat)
    requires
        size > 0,
        well_shaped(parts, k, size),
    ensures
        with_value(with_value(parts, value, size), value, size) == with_value(parts, value, size),
{
    lemma_with_value_shape(parts, value, k, size);
    lemma_with_value_sets(parts, value, k, size);
    lemma_with_value_present(with_value(parts, value, size), value, k, size);
}

/// Any run of insertions keeps the shape of the partitions.
pub proof fn lemma_with_values_shape(
    parts: Seq<Seq<bool>>,
    values: Seq<Seq<u8>>,
    k: nat,
    size: nat,
)
    requires
        size > 0,
        well_shaped(parts, k, size),
    ensures
        well_shaped(with_values(parts, values, size), k, size),
    decreases values.len(),
{
    if values.len() > 0 {
        lemma_with_values_shape(parts, values.drop_last(), k, size);
        lemma_with_value_shape(
            with_values(parts, values.drop_last(), size),
            values.last(),
            k,
            size,
        );
    }
}

/// Monotonicity: a value that the filter answers yes for is answered yes
/// for after any run of further insertions.
pub proof fn lemma_answers_never_shrink(
    parts: Seq<Seq<bool>>,
    values: Seq<Seq<u8>>,
    other: Seq<u8>,
    k: nat,
    size: nat,
)
    requires
        size > 0,
        well_shaped(parts, k, size),
        all_set(parts, other, size),
    ensures
        all_set(with_values(parts, values, size), other, size),
    decreases values.len(),
{
    if values.len() > 0 {
        let before = with_values(parts, values.drop_last(), size);
        lemma_answers_never_shrink(parts, values.drop_last(), other, k, size);
        lemma_with_values_shape(parts, values.drop_last(), k, size);
        lemma_with_value_keeps(before, values.last(), other, k, size);
    }
}

/// No false negatives: after a run of insertions, each inserted value is
/// answered yes for, whatever was inserted after it.
pub proof fn lemma_no_false_negatives(
    parts: Seq<Seq<bool>>,
    values: Seq<Seq<u8>>,
    j: int,
    k: nat,
    size: nat,
)
    requires
        size > 0,
        well_shaped(parts, k, size),
        0 <= j < values.len(),
    ensures
        all_set(with_values(parts, values, size), values[j], size),
    decreases values.len(),
{
    let before = with_values(parts, values.drop_last(), size);
    lemma_with_values_shape(parts, values.drop_last(), k, size);
    if j == values.len() - 1 {
        lemma_with_value_sets(before, values.last(), k, size);
    } else {
        lemma_no_false_negatives(parts, values.drop_last(), j, k, size);
        lemma_with_value_keeps(before, values.last(), values[j], k, size);
    }
}

} // verus!
