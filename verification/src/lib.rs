//! A fixed-capacity bitmap allocator built as a 16-ary segment tree.
//!
//! Unit indices (`0..CAP`) are tracked as free or allocated.  The leaf
//! allocator keeps sixteen units in one `u16` word; the cascade composes
//! sixteen child allocators under a summary word, multiplying the capacity
//! by sixteen at every level.

use vstd::prelude::*;

mod bits;
mod cascade;
mod laws;
mod leaf;
mod search;

pub use bits::bit_set;
pub use bits::get_bits;
pub use bits::set_bits;
pub use bits::get_bit;
pub use bits::log2;
pub use bits::log2_naive;
pub use bits::set_bit;
pub use cascade::BitAllocCascade16;
pub use laws::alloc_step;
pub use laws::free_set;
pub use laws::lemma_alloc_dealloc_inverse;
pub use laws::lemma_exhaustion;
pub use laws::lemma_insert_then_test;
pub use laws::lemma_remove_then_test;
pub use laws::lemma_summary_matches_children;
pub use laws::summary_bit_correct;
pub use laws::taken;
pub use leaf::BitAlloc16;
pub use search::find_contiguous;
pub use search::has_run;
pub use search::run_free;

verus! {

use core::ops::Range;
use vstd::arithmetic::power2::pow2;

/// The read-only queries of a bitmap allocator: the capacity, whether any
/// or one specific unit is free, and the next free unit at or after a key.
/// The range search is generic over these queries alone.
///
/// The specification side models an allocator by two functions: `spec_cap`,
/// the number of tracked units, and `free`, which says of each index whether
/// that unit is currently free.  `wf` is the structural invariant that every
/// operation preserves.  Operations that do index arithmetic ask that the
/// capacity fits in `usize`; that is a machine limit, not a policy.
pub trait BitScan: Sized {
    /// The bitmap has a total of CAP bits, numbered from 0 to CAP-1
    /// inclusively.  `cap` returns the same number with a proved contract.
    const CAP: usize;

    /// The total number of units, as a mathematical integer.
    spec fn spec_cap() -> int;

    /// Whether unit `i` is currently free.  False outside `0..spec_cap()`.
    spec fn free(&self, i: int) -> bool;

    /// The structural invariant of the allocator.
    spec fn wf(&self) -> bool;

    /// Every allocator tracks at least one unit.
    proof fn lemma_cap_positive()
        ensures
            Self::spec_cap() >= 1,
    ;

    /// Free units lie below the capacity.
    proof fn lemma_free_in_range(&self, i: int)
        ensures
            self.free(i) ==> 0 <= i < Self::spec_cap(),
    ;

    /// The capacity as a run-time value.
    fn cap() -> (r: usize)
        requires
            Self::spec_cap() <= usize::MAX as int,
        ensures
            r as int == Self::spec_cap(),
    ;

    /// Find a index not less than a given key, where the bit is free.
    fn next(&self, key: usize) -> (r: Option<usize>)
        requires
            self.wf(),
            Self::spec_cap() <= usize::MAX as int,
        ensures
            match r {
                Some(n) => {
                    &&& key <= n
                    &&& (n as int) < Self::spec_cap()
                    &&& self.free(n as int)
                    &&& forall|j: int| key <= j < n as int ==> !self.free(j)
                },
                None => forall|j: int| j >= key ==> !self.free(j),
            },
    ;

    /// Whether there are free bits remaining.
    fn any(&self) -> (r: bool)
        requires
            self.wf(),
        ensures
            r == exists|i: int| self.free(i),
    ;

    /// Whether a specific bit is free.
    fn test(&self, key: usize) -> (r: bool)
        requires
            Self::spec_cap() <= usize::MAX as int,
            key < Self::spec_cap(),
        ensures
            r == self.free(key as int),
    ;
}

/// Allocator of a bitmap, able to allocate / free bits, atop the read-only
/// queries of [`BitScan`].
pub trait BitAlloc: BitScan {
    /// The initial state: nothing is free.
    fn new() -> (r: Self)
        ensures
            r.wf(),
            forall|i: int| !r.free(i),
    ;

    /// Allocate a free bit.  The selection policy is fixed: the returned
    /// unit is always the highest-indexed currently-free one.
    fn allocate(&mut self) -> (r: Option<usize>)
        requires
            old(self).wf(),
            Self::spec_cap() <= usize::MAX as int,
        ensures
            final(self).wf(),
            match r {
                Some(k) => {
                    &&& 0 <= (k as int) < Self::spec_cap()
                    &&& old(self).free(k as int)
                    &&& !final(self).free(k as int)
                    &&& forall|j: int| j != k as int ==> final(self).free(j) == old(self).free(j)
                    &&& forall|j: int| old(self).free(j) ==> j <= k as int
                },
                None => (forall|j: int| !old(self).free(j)) && *final(self) == *old(self),
            },
    ;

    /// Allocate a free block with a given size, and return the first bit
    /// position.  The block starts at the lowest aligned base whose run of
    /// `size` units is entirely free; no run is reserved on failure.
    fn alloc_contiguous(&mut self, size: usize, align_log2: usize) -> (r: Option<usize>)
        requires
            old(self).wf(),
            align_log2 < usize::BITS,
            Self::spec_cap() + pow2(align_log2 as nat) <= usize::MAX as int,
        ensures
            final(self).wf(),
            match r {
                Some(base) => {
                    &&& size > 0
                    &&& aligned(base as int, align_log2 as nat)
                    &&& base + size <= Self::spec_cap()
                    &&& forall|j: int|
                        base <= j < base + size ==> old(self).free(j) && !final(self).free(j)
                    &&& forall|j: int|
                        !(base <= j < base + size) ==> final(self).free(j) == old(self).free(j)
                    &&& forall|b: int|
                        0 <= b < base && #[trigger] aligned(b, align_log2 as nat) ==> !(forall|
                            j: int,
                        |
                            b <= j < b + size ==> #[trigger] old(self).free(j))
                },
                None => {
                    &&& *final(self) == *old(self)
                    &&& (size > 0 && pow2(align_log2 as nat) <= Self::spec_cap()) ==> !(exists|
                        b: int,
                    |
                        {
                            &&& 0 <= b
                            &&& #[trigger] aligned(b, align_log2 as nat)
                            &&& b + size <= Self::spec_cap()
                            &&& forall|j: int| b <= j < b + size ==> #[trigger] old(self).free(j)
                        })
                },
            },
    ;

    /// Free an allocated bit.  Freeing an already-free unit is a contract
    /// violation, excluded here rather than tolerated at run time.
    fn dealloc(&mut self, key: usize)
        requires
            old(self).wf(),
            Self::spec_cap() <= usize::MAX as int,
            key < Self::spec_cap(),
            !old(self).free(key as int),
        ensures
            final(self).wf(),
            forall|j: int| final(self).free(j) == (old(self).free(j) || j == key as int),
    ;

    /// Mark bits in the range as unallocated (available).
    fn insert(&mut self, range: Range<usize>)
        requires
            old(self).wf(),
            Self::spec_cap() <= usize::MAX as int,
            range.start <= range.end,
            range.end <= Self::spec_cap(),
        ensures
            final(self).wf(),
            forall|j: int|
                final(self).free(j) == (old(self).free(j) || (range.start <= j < range.end)),
    ;

    /// Reverse of insert.
    fn remove(&mut self, range: Range<usize>)
        requires
            old(self).wf(),
            Self::spec_cap() <= usize::MAX as int,
            range.start <= range.end,
            range.end <= Self::spec_cap(),
        ensures
            final(self).wf(),
            forall|j: int|
                final(self).free(j) == (old(self).free(j) && !(range.start <= j < range.end)),
    ;

}

/// Base `b` is a multiple of the alignment `2^align_log2`.
pub open spec fn aligned(b: int, align_log2: nat) -> bool {
    b % (pow2(align_log2) as int) == 0
}

/// A bitmap of 256 bits.
pub type BitAlloc256 = BitAllocCascade16<BitAlloc16>;

/// A bitmap of 4K bits.
pub type BitAlloc4K = BitAllocCascade16<BitAlloc256>;

/// A bitmap of 64K bits.
pub type BitAlloc64K = BitAllocCascade16<BitAlloc4K>;

/// A bitmap of 1M bits.
pub type BitAlloc1M = BitAllocCascade16<BitAlloc64K>;

/// A bitmap of 16M bits.
pub type BitAlloc16M = BitAllocCascade16<BitAlloc1M>;

/// A bitmap of 256M bits.
pub type BitAlloc256M = BitAllocCascade16<BitAlloc16M>;

} // verus!
