//! The leaf allocator: sixteen units tracked by one 16-bit word.

use vstd::prelude::*;

verus! {

use core::ops::Range;
use crate::BitAlloc;
use crate::BitScan;
use crate::bits::bit_set;
use crate::bits::get_bit;
use crate::bits::get_bits;
use crate::bits::lemma_nonzero_word;
use crate::bits::lemma_ones_word;
use crate::bits::lemma_zero_word;
use crate::bits::log2;
use crate::bits::set_bit;
use crate::bits::set_bits;
use crate::search::find_contiguous;

/// A bitmap consisting of only 16 bits.  Acts as the leaf node of the
/// segment trees: bit `b` set means unit `b` is free.
pub struct BitAlloc16(pub u16);

impl BitScan for BitAlloc16 {
    const CAP: usize = 16;

    open spec fn spec_cap() -> int {
        16
    }

    open spec fn free(&self, i: int) -> bool {
        0 <= i < 16 && bit_set(self.0, i as u16)
    }

    open spec fn wf(&self) -> bool {
        true
    }

    proof fn lemma_cap_positive() {
    }

    proof fn lemma_free_in_range(&self, i: int) {
    }

    fn cap() -> (r: usize) {
        16
    }

    fn next(&self, key: usize) -> (r: Option<usize>) {
        let mut i: usize = key;
        while i < 16
            invariant
                key <= i,
                forall|j: int| key <= j < i ==> !self.free(j),
            decreases 16 - i,
        {
            if get_bit(self.0, i) {
                return Some(i);
            }
            i = i + 1;
        }
        None
    }

    fn any(&self) -> (r: bool) {
        let r = self.0 != 0;
        proof {
            if self.0 != 0 {
                lemma_nonzero_word(self.0);
                let j0 = choose|j: u16| j < 16 && bit_set(self.0, j);
                assert(self.free(j0 as int));
            } else {
                lemma_zero_word(self.0);
            }
        }
        r
    }

    fn test(&self, key: usize) -> (r: bool) {
        get_bit(self.0, key)
    }
}

impl BitAlloc for BitAlloc16 {
    fn new() -> (r: Self) {
        let r = BitAlloc16(0);
        proof {
            lemma_zero_word(0u16);
        }
        r
    }

    fn allocate(&mut self) -> (r: Option<usize>) {
        if self.any() {
            proof {
                let i0 = choose|i: int| self.free(i);
                let j0 = i0 as u16;
                let w = self.0;
                assert((w >> j0) & 1u16 == 1u16 ==> w != 0) by (bit_vector);
            }
            let i = log2(self.0);
            self.0 = set_bit(self.0, i, false);
            proof {
                let wo = old(self).0;
                assert forall|j: int| j != i as int implies self.free(j) == old(self).free(j) by {
                    if 0 <= j < 16 {
                        assert(bit_set(self.0, j as u16) == bit_set(wo, j as u16));
                    }
                }
                assert forall|j: int| old(self).free(j) implies j <= i as int by {
                    if j > i as int {
                        assert(!bit_set(wo, j as u16));
                    }
                }
            }
            Some(i)
        } else {
            None
        }
    }

    fn alloc_contiguous(&mut self, size: usize, align_log2: usize) -> (r: Option<usize>) {
        let c: usize = Self::cap();
        if let Some(base) = find_contiguous(self, c, size, align_log2) {
            self.remove(base..base + size);
            Some(base)
        } else {
            None
        }
    }

    fn dealloc(&mut self, key: usize) {
        self.0 = set_bit(self.0, key, true);
        proof {
            let wo = old(self).0;
            assert forall|j: int|
                self.free(j) == (old(self).free(j) || j == key as int) by {
                if 0 <= j < 16 && j != key as int {
                    assert(bit_set(self.0, j as u16) == bit_set(wo, j as u16));
                }
            }
        }
    }

    fn insert(&mut self, range: Range<usize>) {
        proof {
            lemma_ones_word(0xffff);
        }
        let ones = get_bits(0xffff, range.start, range.end);
        self.0 = set_bits(self.0, range.start, range.end, ones);
        proof {
            let wo = old(self).0;
            assert forall|j: int|
                self.free(j) == (old(self).free(j) || (range.start <= j < range.end)) by {
                if 0 <= j < 16 {
                    let ju = j as u16;
                    assert(bit_set(self.0, ju) == (if range.start <= ju < range.end {
                        bit_set(ones, (ju - range.start) as u16)
                    } else {
                        bit_set(wo, ju)
                    }));
                    if range.start <= j < range.end {
                        let k = (ju - range.start) as u16;
                        assert(bit_set(ones, k) == (k < range.end - range.start && bit_set(
                            0xffff,
                            (range.start + k) as u16,
                        )));
                        assert(bit_set(ones, k));
                    }
                }
            }
        }
    }

    fn remove(&mut self, range: Range<usize>) {
        proof {
            lemma_zero_word(0u16);
        }
        self.0 = set_bits(self.0, range.start, range.end, 0);
        proof {
            let wo = old(self).0;
            assert forall|j: int|
                self.free(j) == (old(self).free(j) && !(range.start <= j < range.end)) by {
                if 0 <= j < 16 {
                    let ju = j as u16;
                    assert(bit_set(self.0, ju) == (if range.start <= ju < range.end {
                        bit_set(0u16, (ju - range.start) as u16)
                    } else {
                        bit_set(wo, ju)
                    }));
                }
            }
        }
    }
}

impl Default for BitAlloc16 {
    /// The default leaf has every unit allocated.
    fn default() -> (r: Self)
        ensures
            r.wf(),
            forall|i: int| !r.free(i),
    {
        Self::new()
    }
}

} // verus!
