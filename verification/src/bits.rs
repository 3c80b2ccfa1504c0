//! Bit-level primitives on a 16-bit word: single-bit reads and writes,
//! range writes, and the position of the most-significant set bit.

use vstd::prelude::*;

verus! {

/// True when bit `i` of `w` is set.  A shift by sixteen or more clears the
/// word, so the predicate is false for every index outside `0..16`.
pub open spec fn bit_set(w: u16, i: u16) -> bool {
    (w >> i) & 1u16 == 1u16
}

/// Read bit `i` of `w`.
pub fn get_bit(w: u16, i: usize) -> (r: bool)
    requires
        i < 16,
    ensures
        r == bit_set(w, i as u16),
{
    (w >> (i as u16)) & 1u16 == 1u16
}

/// Write bit `i` of `w` to `v`, leaving every other bit unchanged.
pub fn set_bit(w: u16, i: usize, v: bool) -> (r: u16)
    requires
        i < 16,
    ensures
        forall|j: u16| j < 16 ==> bit_set(r, j) == (if j == i as u16 {
            v
        } else {
            bit_set(w, j)
        }),
{
    let r: u16 = if v {
        w | (1u16 << (i as u16))
    } else {
        w & !(1u16 << (i as u16))
    };
    proof {
        let iu = i as u16;
        assert forall|j: u16| j < 16 implies bit_set(r, j) == (if j == iu {
            v
        } else {
            bit_set(w, j)
        }) by {
            if v {
                assert(iu < 16 && j < 16 ==> (((w | (1u16 << iu)) >> j) & 1u16 == 1u16) == (if j
                    == iu {
                    true
                } else {
                    (w >> j) & 1u16 == 1u16
                })) by (bit_vector);
            } else {
                assert(iu < 16 && j < 16 ==> (((w & !(1u16 << iu)) >> j) & 1u16 == 1u16) == (if j
                    == iu {
                    false
                } else {
                    (w >> j) & 1u16 == 1u16
                })) by (bit_vector);
            }
        }
    }
    r
}

/// Read bits `start..end` of `w` as a packed value: bit `k` of the result
/// is bit `start + k` of `w` for `k` below the range's width, and zero
/// above it.
pub fn get_bits(w: u16, start: usize, end: usize) -> (r: u16)
    requires
        start <= end,
        end <= 16,
    ensures
        forall|k: u16| k < 16 ==> bit_set(r, k) == (k < end - start && bit_set(
            w,
            (start + k) as u16,
        )),
{
    proof {
        lemma_zero_word(0u16);
    }
    let mut r: u16 = 0;
    let mut k: usize = 0;
    while k < end - start
        invariant
            start <= end <= 16,
            k <= end - start,
            forall|j: u16| j < 16 ==> bit_set(r, j) == (j < k && bit_set(w, (start + j) as u16)),
        decreases end - start - k,
    {
        let b = get_bit(w, start + k);
        r = set_bit(r, k, b);
        k = k + 1;
    }
    r
}

/// Write the packed value `v` into bits `start..end` of `w`: bit `j` of the
/// result is bit `j - start` of `v` inside the range and bit `j` of `w`
/// outside it.  The value must fit the range: its bits at or above the
/// range's width must be clear.
pub fn set_bits(w: u16, start: usize, end: usize, v: u16) -> (r: u16)
    requires
        start <= end,
        end <= 16,
        forall|k: u16| end - start <= k < 16 ==> !bit_set(v, k),
    ensures
        forall|j: u16| j < 16 ==> bit_set(r, j) == (if start <= j < end {
            bit_set(v, (j - start) as u16)
        } else {
            bit_set(w, j)
        }),
{
    let mut r: u16 = w;
    let mut i: usize = start;
    while i < end
        invariant
            start <= i <= end <= 16,
            forall|j: u16| j < 16 ==> bit_set(r, j) == (if start <= j < i {
                bit_set(v, (j - start) as u16)
            } else {
                bit_set(w, j)
            }),
        decreases end - i,
    {
        let b = get_bit(v, i - start);
        r = set_bit(r, i, b);
        i = i + 1;
    }
    r
}

/// Every bit of an all-ones word below sixteen is set.
pub proof fn lemma_ones_word(w: u16)
    requires
        w == 0xffff,
    ensures
        forall|j: u16| j < 16 ==> bit_set(w, j),
{
    assert forall|j: u16| j < 16 implies bit_set(w, j) by {
        assert(j < 16 ==> (0xffffu16 >> j) & 1u16 == 1u16) by (bit_vector);
    }
}

/// A zero word has no bit set.
pub proof fn lemma_zero_word(w: u16)
    requires
        w == 0,
    ensures
        forall|j: u16| !bit_set(w, j),
{
    assert forall|j: u16| !bit_set(w, j) by {
        assert(w == 0 ==> (w >> j) & 1u16 != 1u16) by (bit_vector);
    }
}

/// A nonzero word has some bit set below sixteen.
pub proof fn lemma_nonzero_word(w: u16)
    requires
        w != 0,
    ensures
        exists|j: u16| j < 16 && bit_set(w, j),
{
    vstd::std_specs::bits::axiom_u16_leading_zeros(w);
    let lz = vstd::std_specs::bits::u16_leading_zeros(w);
    let p = (15 - lz) as u16;
    assert((w >> p) & 1u16 != 0u16);
    assert((w >> p) & 1u16 != 0u16 ==> (w >> p) & 1u16 == 1u16) by (bit_vector);
    assert(p < 16 && bit_set(w, p));
}

/// For a nonzero word, the 0-based index of its most-significant set bit:
/// that bit is set and every higher bit is clear.  Implemented through the
/// machine's count-leading-zeros instruction.
pub fn log2(x: u16) -> (r: usize)
    requires
        x != 0,
    ensures
        r < 16,
        bit_set(x, r as u16),
        forall|j: u16| r < j < 16 ==> !bit_set(x, j),
{
    proof {
        vstd::std_specs::bits::axiom_u16_leading_zeros(x);
    }
    let lz: u32 = x.leading_zeros();
    let r: usize = (15 - lz) as usize;
    proof {
        let p = (15 - lz) as u16;
        let q = (16 - lz) as u16;
        assert((x >> p) & 1u16 != 0u16);
        assert((x >> p) & 1u16 != 0u16 ==> (x >> p) & 1u16 == 1u16) by (bit_vector);
        assert(x >> q == 0);
        assert forall|j: u16| r < j < 16 implies !bit_set(x, j) by {
            assert(x >> q == 0 && q <= j && j < 16 ==> (x >> j) & 1u16 != 1u16) by (bit_vector);
        }
    }
    r
}

/// The same most-significant-bit search, written as a portable
/// shift-and-count loop.  Its contract is exactly the contract of `log2`,
/// so the two implementations agree on every nonzero word.
pub fn log2_naive(x: u16) -> (r: usize)
    requires
        x != 0,
    ensures
        r < 16,
        bit_set(x, r as u16),
        forall|j: u16| r < j < 16 ==> !bit_set(x, j),
{
    let mut w: u16 = x;
    let mut pos: usize = 0;
    proof {
        assert(x >> 0u16 == x) by (bit_vector);
    }
    while w >= 2
        invariant
            x != 0,
            pos < 16,
            w == x >> (pos as u16),
            w != 0,
        decreases 16 - pos,
    {
        proof {
            let p = pos as u16;
            let p1 = (pos + 1) as u16;
            assert(x >> p >= 2 && p < 16 && p1 == p + 1 ==> p < 15 && (x >> p) >> 1u16 == x >> p1
                && x >> p1 != 0) by (bit_vector);
        }
        w = w >> 1u16;
        pos = pos + 1;
    }
    proof {
        let p = pos as u16;
        assert(x >> p == 1 ==> (x >> p) & 1u16 == 1u16) by (bit_vector);
        assert forall|j: u16| pos < j < 16 implies !bit_set(x, j) by {
            assert(x >> p == 1 && p < j && j < 16 ==> (x >> j) & 1u16 != 1u16) by (bit_vector);
        }
    }
    pos
}

} // verus!
