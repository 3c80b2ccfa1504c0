//! The cascading composite allocator: sixteen child allocators under one
//! 16-bit summary word, multiplying the child capacity by sixteen.

use vstd::prelude::*;

verus! {

use core::ops::Range;
use crate::BitAlloc;
use crate::BitScan;
use crate::bits::bit_set;
use crate::bits::get_bit;
use crate::bits::lemma_nonzero_word;
use crate::bits::lemma_zero_word;
use crate::bits::log2;
use crate::bits::set_bit;
use crate::search::find_contiguous;
use vstd::arithmetic::div_mod::lemma_fundamental_div_mod;
use vstd::arithmetic::div_mod::lemma_div_is_ordered;
use vstd::arithmetic::div_mod::lemma_fundamental_div_mod_converse;
use vstd::arithmetic::div_mod::lemma_mod_division_less_than_divisor;

/// Splitting a key by a child capacity `c`: bounds of quotient and
/// remainder, and the bracketing of the key by child boundaries.
proof fn lemma_split(c: int, k: int)
    requires
        c >= 1,
        0 <= k,
    ensures
        0 <= k / c,
        0 <= k % c < c,
        k == (k / c) * c + k % c,
        k == c * (k / c) + k % c,
        c * (k / c) <= k < c * (k / c + 1),
        k < 16 * c ==> k / c < 16,
{
    lemma_fundamental_div_mod(k, c);
    lemma_mod_division_less_than_divisor(k, c);
    assert(c * (k / c) == (k / c) * c && c * (k / c + 1) == (k / c) * c + c) by (nonlinear_arith);
    assert(k / c >= 0 && (k < 16 * c ==> k / c < 16)) by (nonlinear_arith)
        requires
            c >= 1,
            k >= 0,
            k == c * (k / c) + k % c,
            0 <= k % c < c,
    ;
}

/// Joining a child index and a local key back into a key.
proof fn lemma_join(c: int, ci: int, l: int)
    requires
        c >= 1,
        0 <= ci,
        0 <= l < c,
    ensures
        (c * ci + l) / c == ci,
        (c * ci + l) % c == l,
        ci < 16 ==> c * ci + l < 16 * c,
{
    assert(ci * c == c * ci && (ci < 16 ==> c * ci + l < 16 * c)) by (nonlinear_arith)
        requires
            c >= 1,
            0 <= l < c,
            ci >= 0,
    ;
    lemma_fundamental_div_mod_converse(c * ci + l, c, ci, l);
}

/// A key bracketed by the boundaries of child `ci` splits into that child.
proof fn lemma_in_child(c: int, j: int, ci: int)
    requires
        c >= 1,
        0 <= ci,
        c * ci <= j < c * ci + c,
    ensures
        j / c == ci,
        j % c == j - c * ci,
{
    assert(ci * c == c * ci) by (nonlinear_arith);
    lemma_fundamental_div_mod_converse(j, c, ci, j - c * ci);
}

/// Distributing a factor over a successor.
proof fn lemma_mul_dist1(c: int, a: int)
    ensures
        c * (a + 1) == c * a + c,
{
    assert(c * (a + 1) == c * a + c) by (nonlinear_arith);
}

/// Multiplying by a nonnegative factor keeps the order of the other factor.
proof fn lemma_mul_le(c: int, a: int, b: int)
    requires
        c >= 0,
        a <= b,
    ensures
        c * a <= c * b,
{
    assert(c * a <= c * b) by (nonlinear_arith)
        requires
            c >= 0,
            a <= b,
    ;
}

/// Implement the bit allocator by segment tree algorithm.
///
/// The summary word caches, for each child, whether that child still has a
/// free unit; the well-formedness invariant `wf` ties every summary bit to
/// its child and is re-established by every mutating operation.
pub struct BitAllocCascade16<T: BitAlloc> {
    /// For each child: 1 means some unit is available, 0 means none.
    pub bitset: u16,
    /// The sixteen children, each of capacity `T::spec_cap()`.
    pub sub: [T; 16],
}

impl<T: BitAlloc> BitScan for BitAllocCascade16<T> {
    const CAP: usize = T::CAP * 16;

    open spec fn spec_cap() -> int {
        16 * T::spec_cap()
    }

    open spec fn free(&self, i: int) -> bool {
        &&& 0 <= i < 16 * T::spec_cap()
        &&& self.sub@[i / T::spec_cap()].free(i % T::spec_cap())
    }

    open spec fn wf(&self) -> bool {
        forall|c: int|
            #![trigger self.sub@[c]]
            0 <= c < 16 ==> {
                &&& self.sub@[c].wf()
                &&& (bit_set(self.bitset, c as u16) <==> exists|j: int|
                    (#[trigger] self.sub@[c].free(j)))
            }
    }

    proof fn lemma_cap_positive() {
        T::lemma_cap_positive();
    }

    proof fn lemma_free_in_range(&self, i: int) {
    }

    fn cap() -> (r: usize) {
        proof {
            T::lemma_cap_positive();
        }
        16 * T::cap()
    }

    fn next(&self, key: usize) -> (r: Option<usize>) {
        let ghost cc = T::spec_cap();
        proof {
            T::lemma_cap_positive();
            lemma_split(cc, key as int);
        }
        let c: usize = T::cap();
        let ind: usize = key / c;
        let mut i: usize;
        if ind < 16 && get_bit(self.bitset, ind) {
            let local = self.sub[ind].next(key - c * ind);
            if let Some(res) = local {
                proof {
                    lemma_join(cc, ind as int, res as int);
                }
                let n: usize = res + c * ind;
                proof {
                    assert(self.free(n as int));
                    assert forall|j: int| key <= j < n as int implies !self.free(j) by {
                        if self.free(j) {
                            lemma_in_child(cc, j, ind as int);
                        }
                    }
                }
                return Some(n);
            }
            proof {
                lemma_mul_dist1(cc, ind as int);
                assert forall|j: int| key <= j < c * (ind + 1) implies !self.free(j) by {
                    if self.free(j) {
                        lemma_in_child(cc, j, ind as int);
                    }
                }
            }
            i = ind + 1;
        } else if ind < 16 {
            proof {
                lemma_mul_dist1(cc, ind as int);
                assert forall|j: int| key <= j < c * (ind + 1) implies !self.free(j) by {
                    if self.free(j) {
                        lemma_in_child(cc, j, ind as int);
                        assert(self.sub@[ind as int].free(j % cc));
                    }
                }
            }
            i = ind + 1;
        } else {
            proof {
                lemma_mul_le(cc, 16, ind as int);
                assert forall|j: int| key <= j < c * 16 implies !self.free(j) by {
                    if self.free(j) {
                        assert(j < 16 * cc <= cc * ind <= key);
                    }
                }
            }
            i = 16;
        }
        while i < 16
            invariant
                self.wf(),
                cc == T::spec_cap(),
                cc >= 1,
                16 * cc <= usize::MAX as int,
                c as int == cc,
                i <= 16,
                key < c * i || i == 16,
                forall|j: int| key <= j < c * i ==> !self.free(j),
            decreases 16 - i,
        {
            if get_bit(self.bitset, i) {
                let local = self.sub[i].next(0);
                if let Some(res) = local {
                    proof {
                        lemma_join(cc, i as int, res as int);
                    }
                    let n: usize = res + c * i;
                    proof {
                        assert(self.free(n as int));
                        assert forall|j: int| key <= j < n as int implies !self.free(j) by {
                            if self.free(j) && j >= c * i {
                                lemma_in_child(cc, j, i as int);
                            }
                        }
                    }
                    return Some(n);
                }
                proof {
                    lemma_mul_dist1(cc, i as int);
                    assert forall|j: int| key <= j < c * (i + 1) implies !self.free(j) by {
                        if self.free(j) && j >= c * i {
                            lemma_in_child(cc, j, i as int);
                        }
                    }
                    lemma_mul_le(cc, i as int, i as int + 1);
                }
            } else {
                proof {
                    lemma_mul_dist1(cc, i as int);
                    assert forall|j: int| key <= j < c * (i + 1) implies !self.free(j) by {
                        if self.free(j) && j >= c * i {
                            lemma_in_child(cc, j, i as int);
                            assert(self.sub@[i as int].free(j % cc));
                        }
                    }
                    lemma_mul_le(cc, i as int, i as int + 1);
                }
            }
            i = i + 1;
        }
        proof {
            assert forall|j: int| j >= key implies !self.free(j) by {
                if self.free(j) {
                    assert(j < 16 * cc == c * 16);
                }
            }
        }
        None
    }

    fn any(&self) -> (r: bool) {
        let ghost cc = T::spec_cap();
        let r = self.bitset != 0;
        proof {
            T::lemma_cap_positive();
            if self.bitset != 0 {
                lemma_nonzero_word(self.bitset);
                let c0 = choose|c: u16| c < 16 && bit_set(self.bitset, c);
                assert(self.sub@[c0 as int].wf());
                assert(bit_set(self.bitset, (c0 as int) as u16));
                let j0 = choose|j: int| self.sub@[c0 as int].free(j);
                self.sub@[c0 as int].lemma_free_in_range(j0);
                lemma_join(cc, c0 as int, j0);
                assert(self.free(cc * (c0 as int) + j0));
            } else {
                lemma_zero_word(self.bitset);
                assert forall|i: int| !self.free(i) by {
                    if 0 <= i < 16 * cc {
                        lemma_split(cc, i);
                        assert(self.sub@[i / cc].wf());
                        assert(!bit_set(self.bitset, (i / cc) as u16));
                    }
                }
            }
        }
        r
    }

    fn test(&self, key: usize) -> (r: bool) {
        proof {
            T::lemma_cap_positive();
            lemma_split(T::spec_cap(), key as int);
        }
        let c: usize = T::cap();
        self.sub[key / c].test(key % c)
    }
}

impl<T: BitAlloc> BitAlloc for BitAllocCascade16<T> {
    fn new() -> (r: Self) {
        let r = BitAllocCascade16 {
            bitset: 0,
            sub: [
                T::new(),
                T::new(),
                T::new(),
                T::new(),
                T::new(),
                T::new(),
                T::new(),
                T::new(),
                T::new(),
                T::new(),
                T::new(),
                T::new(),
                T::new(),
                T::new(),
                T::new(),
                T::new(),
            ],
        };
        proof {
            lemma_zero_word(0u16);
            T::lemma_cap_positive();
            assert forall|i: int| !r.free(i) by {
                if 0 <= i < 16 * T::spec_cap() {
                    lemma_split(T::spec_cap(), i);
                }
            }
        }
        r
    }

    fn allocate(&mut self) -> (r: Option<usize>) {
        let ghost cc = T::spec_cap();
        proof {
            T::lemma_cap_positive();
        }
        if self.any() {
            proof {
                let i0 = choose|i: int| self.free(i);
                lemma_split(cc, i0);
                let w = self.bitset;
                let c0 = (i0 / cc) as u16;
                assert(bit_set(w, c0));
                assert((w >> c0) & 1u16 == 1u16 ==> w != 0) by (bit_vector);
            }
            let c: usize = T::cap();
            let i: usize = log2(self.bitset);
            proof {
                assert(self.sub@[i as int].wf());
                assert(bit_set(self.bitset, (i as int) as u16));
                assert(exists|j: int| self.sub@[i as int].free(j));
            }
            let local = self.sub[i].allocate();
            match local {
                Some(k) => {
                    let b = self.sub[i].any();
                    self.bitset = set_bit(self.bitset, i, b);
                    proof {
                        old(self).sub@[i as int].lemma_free_in_range(k as int);
                        lemma_join(cc, i as int, k as int);
                    }
                    let res: usize = k + i * c;
                    proof {
                        assert(res as int == cc * (i as int) + k as int) by (nonlinear_arith)
                            requires
                                res as int == k as int + (i as int) * (c as int),
                                c as int == cc,
                        ;
                        assert(old(self).free(res as int));
                        assert(!self.free(res as int));
                        assert forall|j: int| j != res as int implies self.free(j) == old(
                            self,
                        ).free(j) by {
                            if 0 <= j < 16 * cc {
                                lemma_split(cc, j);
                                if j / cc == i as int {
                                    assert(j % cc != k as int);
                                    assert(self.sub@[j / cc].free(j % cc) == old(self).sub@[j
                                        / cc].free(j % cc));
                                } else {
                                    assert(self.sub@[j / cc] == old(self).sub@[j / cc]);
                                }
                            }
                        }
                        assert forall|j: int| old(self).free(j) implies j <= res as int by {
                            lemma_split(cc, j);
                            let cj = j / cc;
                            assert(old(self).sub@[cj].wf());
                            assert(old(self).sub@[cj].free(j % cc));
                            assert(bit_set(old(self).bitset, cj as u16));
                            assert(cj <= i as int);
                            if cj < i as int {
                                lemma_mul_le(cc, cj + 1, i as int);
                                assert(j < cc * (cj + 1) <= cc * (i as int) <= res as int);
                            } else {
                                assert(j % cc <= k as int);
                            }
                        }
                        assert forall|ch: int|
                            #![trigger self.sub@[ch]]
                            0 <= ch < 16 implies {
                            &&& self.sub@[ch].wf()
                            &&& (bit_set(self.bitset, ch as u16) <==> exists|j: int|
                                (#[trigger] self.sub@[ch].free(j)))
                        } by {
                            if ch != i as int {
                                assert(self.sub@[ch] == old(self).sub@[ch]);
                                assert(bit_set(self.bitset, ch as u16) == bit_set(
                                    old(self).bitset,
                                    ch as u16,
                                ));
                            }
                        }
                    }
                    Some(res)
                },
                None => {
                    proof {
                        assert(false);
                    }
                    None
                },
            }
        } else {
            None
        }
    }

    fn alloc_contiguous(&mut self, size: usize, align_log2: usize) -> (r: Option<usize>) {
        proof {
            T::lemma_cap_positive();
        }
        let c: usize = Self::cap();
        if let Some(base) = find_contiguous(self, c, size, align_log2) {
            self.remove(base..base + size);
            Some(base)
        } else {
            None
        }
    }

    fn dealloc(&mut self, key: usize) {
        let ghost cc = T::spec_cap();
        proof {
            T::lemma_cap_positive();
            lemma_split(cc, key as int);
        }
        let c: usize = T::cap();
        let i: usize = key / c;
        self.sub[i].dealloc(key % c);
        self.bitset = set_bit(self.bitset, i, true);
        proof {
            assert forall|j: int|
                self.free(j) == (old(self).free(j) || j == key as int) by {
                if 0 <= j < 16 * cc {
                    lemma_split(cc, j);
                    if j / cc == i as int {
                        assert(j == cc * (j / cc) + j % cc && key == cc * (i as int) + key as int
                            % cc) by (nonlinear_arith)
                            requires
                                j == (j / cc) * cc + j % cc,
                                key == (key as int / cc) * cc + key as int % cc,
                                j / cc == i as int,
                                i as int == key as int / cc,
                        ;
                        assert((j % cc == key as int % cc) <==> (j == key as int));
                    } else {
                        assert(self.sub@[j / cc] == old(self).sub@[j / cc]);
                        assert(j != key as int);
                    }
                }
            }
            assert(self.free(key as int));
            assert forall|ch: int|
                #![trigger self.sub@[ch]]
                0 <= ch < 16 implies {
                &&& self.sub@[ch].wf()
                &&& (bit_set(self.bitset, ch as u16) <==> exists|j: int|
                    (#[trigger] self.sub@[ch].free(j)))
            } by {
                if ch == i as int {
                    assert(self.sub@[ch].free(key as int % cc));
                } else {
                    assert(self.sub@[ch] == old(self).sub@[ch]);
                    assert(bit_set(self.bitset, ch as u16) == bit_set(
                        old(self).bitset,
                        ch as u16,
                    ));
                }
            }
        }
    }

    fn insert(&mut self, range: Range<usize>) {
        self.for_range(range, true);
    }

    fn remove(&mut self, range: Range<usize>) {
        self.for_range(range, false);
    }
}

impl<T: BitAlloc> BitAllocCascade16<T> {
    /// Write every unit of `range` to `set` (true frees, false allocates),
    /// child by child, re-establishing each summary bit on the way.
    #[verifier::rlimit(60)]
    #[verifier::spinoff_prover]
    pub fn for_range(&mut self, range: Range<usize>, set: bool)
        requires
            old(self).wf(),
            Self::spec_cap() <= usize::MAX as int,
            range.start <= range.end,
            range.end <= Self::spec_cap(),
        ensures
            final(self).wf(),
            forall|j: int|
                final(self).free(j) == (if range.start <= j < range.end {
                    set
                } else {
                    old(self).free(j)
                }),
    {
        let ghost cc = T::spec_cap();
        proof {
            T::lemma_cap_positive();
        }
        let start: usize = range.start;
        let end: usize = range.end;
        if end == 0 {
            return ;
        }
        let c: usize = T::cap();
        proof {
            lemma_split(cc, start as int);
            lemma_split(cc, end as int);
            lemma_split(cc, (end - 1) as int);
            lemma_div_is_ordered(start as int, end as int, cc);
            if end as int % cc == 0 {
                lemma_mul_dist1(cc, end as int / cc - 1);
                assert(end as int / cc >= 1) by (nonlinear_arith)
                    requires
                        cc >= 1,
                        end >= 1,
                        end == cc * (end as int / cc),
                ;
                lemma_in_child(cc, (end - 1) as int, end as int / cc - 1);
            } else {
                lemma_in_child(cc, (end - 1) as int, end as int / cc);
            }
            if start < end {
                lemma_div_is_ordered(start as int, (end - 1) as int, cc);
            } else {
                lemma_div_is_ordered((end - 1) as int, start as int, cc);
            }
        }
        let first: usize = start / c;
        let last: usize = (end - 1) / c;
        let mut i: usize = first;
        while i <= last
            invariant
                self.wf(),
                cc == T::spec_cap(),
                cc >= 1,
                16 * cc <= usize::MAX as int,
                c as int == cc,
                1 <= end,
                start <= end <= 16 * cc,
                first == start as int / cc,
                last == (end - 1) as int / cc,
                end as int % cc == 0 ==> last == end as int / cc - 1,
                end as int % cc != 0 ==> last == end as int / cc,
                last < 16,
                first <= i <= last + 1,
                forall|j: int|
                    self.free(j) == (if start <= j < end && j < c * i {
                        set
                    } else {
                        old(self).free(j)
                    }),
            decreases last + 1 - i,
        {
            let begin: usize = if start / c == i {
                start % c
            } else {
                0
            };
            let e2: usize = if end / c == i {
                end % c
            } else {
                c
            };
            proof {
                lemma_split(cc, start as int);
                lemma_split(cc, end as int);
                lemma_split(cc, (end - 1) as int);
                if (start as int / cc) < i as int {
                    lemma_mul_le(cc, start as int / cc + 1, i as int);
                }
                if (i as int) < end as int / cc {
                    lemma_mul_le(cc, i as int + 1, end as int / cc);
                }
            }
            let ghost prev = *self;
            if set {
                self.sub[i].insert(begin..e2);
            } else {
                self.sub[i].remove(begin..e2);
            }
            proof {
                assert(self.sub@[i as int].wf());
                assert(forall|l: int|
                    #[trigger] self.sub@[i as int].free(l) == (if begin as int <= l < e2 as int {
                        set
                    } else {
                        prev.sub@[i as int].free(l)
                    }));
            }
            let b = self.sub[i].any();
            self.bitset = set_bit(self.bitset, i, b);
            proof {
                assert forall|j: int|
                    self.free(j) == (if start <= j < end && j < c * (i + 1) {
                        set
                    } else {
                        old(self).free(j)
                    }) by {
                    if 0 <= j < 16 * cc {
                        lemma_split(cc, j);
                        let cj = j / cc;
                        if cj == i as int {
                            assert(j < c * (i + 1));
                            assert(j == cc * (i as int) + j % cc);
                            if start as int / cc == i as int {
                                assert(start == cc * (i as int) + start as int % cc);
                            } else {
                                assert(begin == 0);
                                assert(start < cc * (start as int / cc + 1) <= cc * (i as int)
                                    <= j);
                            }
                            if end as int / cc == i as int {
                                assert(end == cc * (i as int) + end as int % cc);
                            } else {
                                assert(e2 as int == cc);
                                assert((i as int) < end as int / cc);
                                assert(j < cc * (i as int + 1) <= cc * (end as int / cc) <= end);
                            }
                            assert((begin as int <= j % cc < e2 as int) == (start <= j < end));
                            assert(self.free(j) == self.sub@[i as int].free(j % cc));
                            assert(self.sub@[i as int].free(j % cc) == (if begin as int <= j % cc
                                < e2 as int {
                                set
                            } else {
                                prev.sub@[i as int].free(j % cc)
                            }));
                            if !(start <= j < end) {
                                assert(prev.free(j) == prev.sub@[i as int].free(j % cc));
                                assert(prev.free(j) == old(self).free(j));
                            } else {
                                assert(self.free(j) == set);
                            }
                        } else {
                            assert(self.sub@[cj] == prev.sub@[cj]);
                            assert(self.free(j) == prev.free(j));
                            if cj < i as int {
                                lemma_mul_le(cc, cj + 1, i as int);
                                lemma_mul_le(cc, i as int, i as int + 1);
                                assert(j < cc * (cj + 1) <= cc * (i as int));
                                assert(j < c * i && j < c * (i + 1));
                                assert(self.free(j) == (if start <= j < end {
                                    set
                                } else {
                                    old(self).free(j)
                                }));
                            } else {
                                lemma_mul_le(cc, i as int + 1, cj);
                                lemma_mul_le(cc, i as int, i as int + 1);
                                assert(cc * (i as int + 1) <= cc * cj <= j);
                                assert(!(j < c * (i + 1)));
                                assert(!(j < c * i));
                                assert(self.free(j) == old(self).free(j));
                            }
                        }
                    } else {
                        assert(!self.free(j) && !prev.free(j) && !old(self).free(j));
                        assert(!(start <= j < end));
                    }
                }
                assert forall|ch: int|
                    #![trigger self.sub@[ch]]
                    0 <= ch < 16 implies self.sub@[ch].wf() by {
                    if ch != i as int {
                        assert(self.sub@[ch] == prev.sub@[ch]);
                    }
                }
                assert forall|ch: int|
                    #![trigger self.sub@[ch]]
                    0 <= ch < 16 implies (bit_set(self.bitset, ch as u16) <==> exists|j: int|
                    (#[trigger] self.sub@[ch].free(j))) by {
                    if ch == i as int {
                        assert(bit_set(self.bitset, ch as u16) == b);
                        if b {
                            let w = choose|x: int| self.sub@[i as int].free(x);
                            assert(self.sub@[ch].free(w));
                        }
                    } else {
                        assert(self.sub@[ch] == prev.sub@[ch]);
                        assert(bit_set(self.bitset, ch as u16) == bit_set(prev.bitset, ch as u16));
                    }
                }
                assert(self.wf());
            }
            i = i + 1;
        }
        proof {
            assert forall|j: int|
                self.free(j) == (if start <= j < end {
                    set
                } else {
                    old(self).free(j)
                }) by {
                if start <= j < end {
                    assert(j <= end - 1 < cc * ((end - 1) as int / cc + 1));
                    lemma_mul_le(cc, (end - 1) as int / cc + 1, i as int);
                }
            }
        }
    }
}

impl<T: BitAlloc> Default for BitAllocCascade16<T> {
    /// The default composite has every unit allocated.
    fn default() -> (r: Self)
        ensures
            r.wf(),
            forall|i: int| !r.free(i),
    {
        Self::new()
    }
}

} // verus!
