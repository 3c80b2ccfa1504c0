//! The contiguous-range search shared by every allocator level.
//!
//! The algorithm scans with `next`, so a fully allocated child subtree is
//! skipped in one summary-word lookup rather than unit by unit.

use vstd::prelude::*;

verus! {

use crate::BitScan;
use crate::aligned;
use vstd::arithmetic::power2::lemma_pow2_pos;
use vstd::arithmetic::power2::pow2;
use vstd::bits::lemma_usize_pow2_no_overflow;
use vstd::bits::lemma_usize_shl_is_mul;
use vstd::bits::lemma_usize_shr_is_div;

/// Units `base .. base + size` are all free in `ba`.
pub open spec fn run_free<T: BitScan>(ba: &T, base: int, size: int) -> bool {
    forall|j: int| base <= j < base + size ==> #[trigger] ba.free(j)
}

/// Some aligned run of `size` free units ends at or before `capacity`.
pub open spec fn has_run<T: BitScan>(ba: &T, capacity: int, size: int, align_log2: nat) -> bool {
    exists|b: int|
        0 <= b && #[trigger] aligned(b, align_log2) && b + size <= capacity && run_free(
            ba,
            b,
            size,
        )
}

/// The smallest multiple of `2^align_log2` at or after `n`.
fn align_up(n: usize, align_log2: usize) -> (r: usize)
    requires
        n >= 1,
        align_log2 < usize::BITS,
        n + pow2(align_log2 as nat) <= usize::MAX as int,
    ensures
        aligned(r as int, align_log2 as nat),
        n <= r,
        r < n + pow2(align_log2 as nat),
        forall|b: int| aligned(b, align_log2 as nat) && b < r ==> b < n,
{
    proof {
        lemma_usize_pow2_no_overflow(align_log2 as nat);
        lemma_usize_shr_is_div((n - 1) as usize, align_log2);
    }
    let q: usize = (n - 1) >> align_log2;
    proof {
        let p = pow2(align_log2 as nat) as int;
        assert((n - 1) as int / p <= n - 1 && (q + 1) * p <= n - 1 + p) by (nonlinear_arith)
            requires
                p >= 1,
                n >= 1,
                q == (n - 1) as int / p,
        ;
        lemma_usize_shl_is_mul((q + 1) as usize, align_log2);
    }
    let r: usize = (q + 1) << align_log2;
    proof {
        let p = pow2(align_log2 as nat) as int;
        assert(r as int % p == 0 && n <= r) by (nonlinear_arith)
            requires
                p >= 1,
                n >= 1,
                q == (n - 1) as int / p,
                r as int == (q + 1) * p,
        ;
        assert forall|b: int| aligned(b, align_log2 as nat) && b < r implies b < n by {
            if b >= 0 {
                assert(b % p == 0 && b < (q + 1) * p && q == (n - 1) as int / p && p >= 1 && n >= 1
                    && b >= 0 ==> b < n) by (nonlinear_arith);
            }
        }
    }
    r
}

/// Locate the lowest aligned run of `size` consecutive free units, scanning
/// no further than `capacity`.  Returns the run's start, or nothing when no
/// such run exists within the bound (in particular whenever the alignment
/// alone exceeds `capacity`, or `size` is zero).
pub fn find_contiguous<T: BitScan>(
    ba: &T,
    capacity: usize,
    size: usize,
    align_log2: usize,
) -> (r: Option<usize>)
    requires
        ba.wf(),
        align_log2 < usize::BITS,
        T::spec_cap() + pow2(align_log2 as nat) <= usize::MAX as int,
        capacity + pow2(align_log2 as nat) <= usize::MAX as int,
    ensures
        match r {
            Some(base) => {
                &&& size > 0
                &&& aligned(base as int, align_log2 as nat)
                &&& base + size <= capacity
                &&& run_free(ba, base as int, size as int)
                &&& forall|b: int|
                    0 <= b < base && #[trigger] aligned(b, align_log2 as nat) ==> !run_free(
                        ba,
                        b,
                        size as int,
                    )
            },
            None => !(size > 0 && pow2(align_log2 as nat) <= capacity && has_run(
                ba,
                capacity as int,
                size as int,
                align_log2 as nat,
            )),
        },
{
    proof {
        lemma_usize_pow2_no_overflow(align_log2 as nat);
        lemma_usize_shl_is_mul(1usize, align_log2);
        assert(1 * pow2(align_log2 as nat) == pow2(align_log2 as nat));
    }
    let align: usize = 1usize << align_log2;
    if capacity < align {
        return None;
    }
    if !ba.any() {
        proof {
            assert forall|b: int|
                0 <= b && #[trigger] aligned(b, align_log2 as nat) && b + size <= capacity && size
                    > 0 implies !run_free(ba, b, size as int) by {
                assert(!ba.free(b));
            }
        }
        return None;
    }
    let mut base: usize = 0;
    let mut offset: usize = 0;
    proof {
        lemma_pow2_pos(align_log2 as nat);
        assert(0int % (pow2(align_log2 as nat) as int) == 0) by (nonlinear_arith)
            requires
                pow2(align_log2 as nat) >= 1,
        ;
        assert(aligned(0, align_log2 as nat));
    }
    while offset < capacity
        invariant
            ba.wf(),
            T::spec_cap() <= usize::MAX as int,
            align_log2 < usize::BITS,
            T::spec_cap() + pow2(align_log2 as nat) <= usize::MAX as int,
            capacity + pow2(align_log2 as nat) <= usize::MAX as int,
            align == pow2(align_log2 as nat),
            pow2(align_log2 as nat) <= capacity,
            aligned(base as int, align_log2 as nat),
            base <= offset,
            size > 0 ==> offset < base + size,
            forall|j: int| base <= j < offset ==> #[trigger] ba.free(j),
            size > 0 ==> forall|b: int|
                0 <= b < base && #[trigger] aligned(b, align_log2 as nat) ==> !run_free(
                    ba,
                    b,
                    size as int,
                ),
        decreases (if offset <= capacity {
            capacity - offset
        } else {
            0
        }),
    {
        match ba.next(offset) {
            Some(n) => {
                if n != offset {
                    proof {
                        assert(!ba.free(offset as int));
                    }
                    let nb: usize = align_up(n, align_log2);
                    proof {
                        if size > 0 {
                            assert forall|b: int|
                                0 <= b < nb && #[trigger] aligned(
                                    b,
                                    align_log2 as nat,
                                ) implies !run_free(ba, b, size as int) by {
                                if b < base {
                                } else if b <= offset {
                                    assert(b <= offset < b + size && !ba.free(offset as int));
                                } else {
                                    assert(b < n);
                                    assert(!ba.free(b));
                                    assert(b <= b < b + size);
                                }
                            }
                        }
                    }
                    base = nb;
                    offset = nb;
                } else {
                    offset = offset + 1;
                    if offset - base == size {
                        return Some(base);
                    }
                }
            },
            None => {
                proof {
                    if size > 0 {
                        assert forall|b: int|
                            0 <= b && #[trigger] aligned(b, align_log2 as nat) && b + size
                                <= capacity implies !run_free(ba, b, size as int) by {
                            if b < base {
                            } else if b <= offset {
                                assert(b <= offset < b + size && !ba.free(offset as int));
                            } else {
                                assert(!ba.free(b));
                                assert(b <= b < b + size);
                            }
                        }
                    }
                }
                return None;
            },
        }
    }
    proof {
        if size > 0 {
            assert forall|b: int|
                0 <= b && #[trigger] aligned(b, align_log2 as nat) && b + size
                    <= capacity implies !run_free(ba, b, size as int) by {
                if b < base {
                } else {
                    assert(b + size <= capacity <= offset);
                    assert(offset < base + size);
                    assert(b < base);
                }
            }
        }
    }
    None
}

} // verus!
