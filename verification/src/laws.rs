//! Laws that relate the allocator operations across calls, stated over the
//! same model (`free`, `spec_cap`, `wf`) that the operations' contracts use.

use vstd::prelude::*;

verus! {

use crate::BitAlloc;
use crate::BitAllocCascade16;
use crate::BitScan;
use crate::bits::bit_set;
use vstd::set_lib::lemma_int_range;
use vstd::set_lib::set_int_range;

/// Summary bit `c` of the composite `a` agrees with child `c`: the bit is
/// set exactly when the child still has a free unit.
pub open spec fn summary_bit_correct<T: BitAlloc>(a: &BitAllocCascade16<T>, c: int) -> bool {
    bit_set(a.bitset, c as u16) <==> exists|j: int| (#[trigger] a.sub@[c].free(j))
}

/// The summary invariant of a composite allocator: under `wf` — which every
/// mutating operation ensures — each summary bit equals whether that child
/// still has a free unit.
pub proof fn lemma_summary_matches_children<T: BitAlloc>(a: &BitAllocCascade16<T>)
    requires
        a.wf(),
    ensures
        forall|c: int| 0 <= c < 16 ==> #[trigger] summary_bit_correct(a, c),
{
    assert forall|c: int| 0 <= c < 16 implies #[trigger] summary_bit_correct(a, c) by {
        assert(a.sub@[c].wf());
        if bit_set(a.bitset, c as u16) {
            let w = choose|j: int| (#[trigger] a.sub@[c].free(j));
            assert(a.sub@[c].free(w));
        } else {
            assert forall|j: int| !(#[trigger] a.sub@[c].free(j)) by {}
        }
    }
}

/// Round trip, freeing half: after an `insert` whose range holds `key`, the
/// key tests free.  The premise is exactly the `ensures` of `insert`, the
/// conclusion exactly what `test(key)` then returns.
pub proof fn lemma_insert_then_test<T: BitAlloc>(pre: &T, post: &T, start: int, end: int, key: int)
    requires
        start <= key < end,
        forall|j: int| post.free(j) == (pre.free(j) || (start <= j < end)),
    ensures
        post.free(key),
{
}

/// Round trip, allocating half: after a `remove` whose range holds `key`,
/// the key tests allocated.
pub proof fn lemma_remove_then_test<T: BitAlloc>(pre: &T, post: &T, start: int, end: int, key: int)
    requires
        start <= key < end,
        forall|j: int| post.free(j) == (pre.free(j) && !(start <= j < end)),
    ensures
        !post.free(key),
{
}

/// Allocation and deallocation are inverse: a key handed out by `allocate`
/// was free before the call and allocated after it, and a `dealloc` of that
/// key restores every unit to its state before the allocation.  The premises
/// are the `ensures` of `allocate` returning `Some(key)` and of `dealloc`.
pub proof fn lemma_alloc_dealloc_inverse<T: BitAlloc>(pre: &T, mid: &T, post: &T, key: int)
    requires
        pre.free(key),
        !mid.free(key),
        forall|j: int| j != key ==> mid.free(j) == pre.free(j),
        forall|j: int| post.free(j) == (mid.free(j) || j == key),
    ensures
        post.free(key),
        forall|j: int| post.free(j) == pre.free(j),
{
}

/// One successful `allocate` call, as a relation between the state before,
/// the state after, and the key handed out.  These are the clauses of
/// `allocate`'s contract for a `Some` result, without the selection policy.
pub open spec fn alloc_step<T: BitAlloc>(pre: T, post: T, key: usize) -> bool {
    &&& 0 <= (key as int) < T::spec_cap()
    &&& pre.free(key as int)
    &&& !post.free(key as int)
    &&& forall|j: int| j != key as int ==> post.free(j) == pre.free(j)
}

/// Key `j` is one of the first `t` keys of `keys`.
pub open spec fn taken(keys: Seq<usize>, t: int, j: int) -> bool {
    exists|s: int| 0 <= s < t && (#[trigger] keys[s]) == j
}

/// The set of currently free units.
pub open spec fn free_set<T: BitAlloc>(a: &T) -> Set<int> {
    Set::new(|j: int| a.free(j))
}

/// After `t` successful allocations from a fully free allocator, a unit is
/// free exactly when it is in range and not yet handed out, and exactly
/// `spec_cap() - t` units remain free.
proof fn lemma_alloc_run<T: BitAlloc>(states: Seq<T>, keys: Seq<usize>, t: int)
    requires
        0 <= t <= keys.len(),
        states.len() == keys.len() + 1,
        forall|j: int| #[trigger] states[0].free(j) <==> 0 <= j < T::spec_cap(),
        forall|s: int| 0 <= s < keys.len() ==> alloc_step(states[s], states[s + 1], keys[s]),
    ensures
        forall|j: int| #[trigger]
            states[t].free(j) <==> (0 <= j < T::spec_cap() && !taken(keys, t, j)),
        free_set(&states[t]).finite(),
        free_set(&states[t]).len() == T::spec_cap() - t,
    decreases t,
{
    T::lemma_cap_positive();
    if t == 0 {
        assert(free_set(&states[0]) =~= set_int_range(0, T::spec_cap()));
        lemma_int_range(0, T::spec_cap());
    } else {
        lemma_alloc_run(states, keys, t - 1);
        let k = keys[t - 1] as int;
        assert(alloc_step(states[t - 1], states[t], keys[t - 1]));
        assert forall|j: int| #[trigger]
            states[t].free(j) <==> (0 <= j < T::spec_cap() && !taken(keys, t, j)) by {
            if j == k {
                assert(!states[t].free(j));
                assert(keys[t - 1] == j);
                assert(taken(keys, t, j));
            } else {
                assert(states[t].free(j) == states[t - 1].free(j));
                assert(taken(keys, t, j) == taken(keys, t - 1, j)) by {
                    if taken(keys, t, j) {
                        let s = choose|s: int| 0 <= s < t && (#[trigger] keys[s]) == j;
                        assert(s != t - 1);
                        assert(0 <= s < t - 1 && keys[s] == j);
                    }
                    if taken(keys, t - 1, j) {
                        let s = choose|s: int| 0 <= s < t - 1 && (#[trigger] keys[s]) == j;
                        assert(0 <= s < t && keys[s] == j);
                    }
                }
            }
        }
        assert(free_set(&states[t]) =~= free_set(&states[t - 1]).remove(k));
        assert(states[t - 1].free(k)) by {
            assert(!taken(keys, t - 1, k)) by {
                if taken(keys, t - 1, k) {
                    let s = choose|s: int| 0 <= s < t - 1 && (#[trigger] keys[s]) == k;
                    assert(states[s].free(k) <==> (0 <= k < T::spec_cap() && !taken(keys, s, k)));
                }
            }
        }
        vstd::set::axiom_set_remove_len(free_set(&states[t - 1]), k);
    }
}

/// Exhaustion: from a fully free allocator, a run of exactly `spec_cap()`
/// successful allocations hands out pairwise distinct keys that cover
/// `0 .. spec_cap()` exactly once, and afterwards no unit is free — so a
/// further `allocate`, whose `None` case is owed exactly when nothing is
/// free, must return `None`.
pub proof fn lemma_exhaustion<T: BitAlloc>(states: Seq<T>, keys: Seq<usize>)
    requires
        states.len() == keys.len() + 1,
        keys.len() == T::spec_cap(),
        forall|j: int| #[trigger] states[0].free(j) <==> 0 <= j < T::spec_cap(),
        forall|s: int| 0 <= s < keys.len() ==> alloc_step(states[s], states[s + 1], keys[s]),
    ensures
        forall|t1: int, t2: int|
            #![trigger keys[t1], keys[t2]]
            0 <= t1 < t2 < keys.len() ==> keys[t1] != keys[t2],
        forall|k: int| 0 <= k < T::spec_cap() ==> #[trigger] taken(keys, keys.len() as int, k),
        forall|j: int| !(#[trigger] states[keys.len() as int].free(j)),
{
    let n = keys.len() as int;
    assert forall|t1: int, t2: int|
        #![trigger keys[t1], keys[t2]]
        0 <= t1 < t2 < n implies keys[t1] != keys[t2] by {
        lemma_alloc_run(states, keys, t2);
        assert(alloc_step(states[t2], states[t2 + 1], keys[t2]));
        assert(states[t2].free(keys[t2] as int));
        assert(!taken(keys, t2, keys[t2] as int));
        if keys[t1] == keys[t2] {
            assert(0 <= t1 < t2 && keys[t1] == keys[t2] as int);
            assert(taken(keys, t2, keys[t2] as int));
        }
    }
    lemma_alloc_run(states, keys, n);
    free_set(&states[n]).lemma_len0_is_empty();
    assert forall|j: int| !(#[trigger] states[n].free(j)) by {
        if states[n].free(j) {
            assert(free_set(&states[n]).contains(j));
        }
    }
    assert forall|k: int| 0 <= k < T::spec_cap() implies #[trigger] taken(keys, n, k) by {
        assert(!states[n].free(k));
    }
}

} // verus!
