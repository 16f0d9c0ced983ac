//! What the filters share: the reasons a construction is refused, and the
//! interface that every filter meets.

use vstd::prelude::*;

verus! {

/// Why a filter could not be built from a bit count and a hash count.
#[derive(Clone, Copy, Debug, PartialEq, Eq, Structural)]
pub enum ConstructionError {
    /// The bit count `m` is zero.
    ZeroBits,
    /// The hash-function count `k` is zero.
    ZeroHashes,
    /// There are more hash functions than bits, so a partition would be
    /// empty.
    EmptyPartition,
    /// A size does not fit the machine's address space.
    TooLarge,
}

/// What every filter offers: construction from a bit count and a hash
/// count, insertion, lookup and a structural size.
///
/// A filter never forgets: a value that was inserted, and any value that
/// it once answered yes for, is answered yes for ever after.
pub trait Filter: Sized {
    /// The invariant that construction establishes and insertion keeps.
    spec fn wf(&self) -> bool;

    /// Whether the filter answers that `value` may have been inserted.
    spec fn contains(&self, value: Seq<u8>) -> bool;

    /// The structural size that `get_size` reports.
    spec fn size(&self) -> nat;

    /// The reason for which `new` refuses a bit count `m` and a hash count
    /// `k`, or `None` where it builds the filter.
    spec fn refusal(m: u64, k: u64) -> Option<ConstructionError>;

    /// Builds an empty filter from the bit count `m` and the hash count
    /// `k`, or says why it cannot: an error comes exactly where `refusal`
    /// names one.
    fn new(m: u64, k: u64) -> (r: Result<Self, ConstructionError>)
        ensures
            match r {
                Ok(filter) => {
                    &&& Self::refusal(m, k) is None
                    &&& filter.wf()
                    &&& forall|value: Seq<u8>| !filter.contains(value)
                },
                Err(e) => Self::refusal(m, k) == Some(e),
            },
    ;

    /// Inserts `value`: from now on the filter answers yes for it, and
    /// for every value that it answered yes for before.
    fn insert(&mut self, value: &[u8])
        requires
            old(self).wf(),
        ensures
            final(self).wf(),
            final(self).size() == old(self).size(),
            final(self).contains(value@),
            forall|other: Seq<u8>| old(self).contains(other) ==> final(self).contains(other),
    ;

    /// Whether `value` may have been inserted.
    fn lookup(&self, value: &[u8]) -> (found: bool)
        requires
            self.wf(),
        ensures
            found == self.contains(value@),
    ;

    /// The filter's structural size.
    fn get_size(&self) -> (n: usize)
        requires
            self.wf(),
        ensures
            n == self.size(),
    ;
}

} // verus!
