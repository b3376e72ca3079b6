use vstd::prelude::*;

verus! {

/// Greatest number of members one circle can hold: the deposit bitmap has one
/// bit per member index, and it is 32 bits wide.
pub const MAX_MEMBERS: usize = 32;

/// Whether bit `i` of a cycle's deposit bitmap is set, i.e. whether the member
/// at index `i` has deposited for the active cycle.
pub open spec fn bit(bm: u32, i: int) -> bool {
    0 <= i < 32 && (bm >> (i as u32)) & 1u32 == 1u32
}

/// How many of the bits below `k` are clear: the members among the first `k`
/// who have not deposited.
pub open spec fn missed_below(bm: u32, k: int) -> int
    decreases k,
{
    if k <= 0 {
        0
    } else {
        missed_below(bm, k - 1) + if bit(bm, k - 1) {
            0int
        } else {
            1int
        }
    }
}

/// How many of the bits below `k` are set: the members among the first `k`
/// who have deposited.
pub open spec fn deposited_below(bm: u32, k: int) -> int
    decreases k,
{
    if k <= 0 {
        0
    } else {
        deposited_below(bm, k - 1) + if bit(bm, k - 1) {
            1int
        } else {
            0int
        }
    }
}

/// Every index below `k` is either a hit or a miss, so the two counts split `k`.
pub proof fn lemma_counts_split(bm: u32, k: int)
    requires
        0 <= k,
    ensures
        missed_below(bm, k) + deposited_below(bm, k) == k,
        0 <= missed_below(bm, k) <= k,
        0 <= deposited_below(bm, k) <= k,
    decreases k,
{
    if k > 0 {
        lemma_counts_split(bm, k - 1);
    }
}

/// Setting bit `i` sets exactly that bit and leaves every other bit as it was.
pub proof fn lemma_set_bit(bm: u32, i: u32, j: int)
    requires
        i < 32,
        0 <= j < 32,
    ensures
        bit(bm | (1u32 << i), j) == (j == i || bit(bm, j)),
{
    let ju = j as u32;
    assert(((bm | (1u32 << i)) >> ju) & 1u32 == (if ju == i {
        1u32
    } else {
        (bm >> ju) & 1u32
    })) by (bit_vector)
        requires
            i < 32,
            ju < 32,
    ;
    assert((bm >> ju) & 1u32 == 0u32 || (bm >> ju) & 1u32 == 1u32) by (bit_vector);
}

/// The all-clear bitmap has no bit set.
pub proof fn lemma_zero_bit(j: int)
    ensures
        !bit(0u32, j),
{
    if 0 <= j < 32 {
        let ju = j as u32;
        assert((0u32 >> ju) & 1u32 == 0u32) by (bit_vector);
    }
}

/// When every one of the first `k` bits is set, nobody below `k` has missed.
pub proof fn lemma_full_below(bm: u32, k: int)
    requires
        0 <= k,
        forall|i: int| 0 <= i < k ==> bit(bm, i),
    ensures
        deposited_below(bm, k) == k,
        missed_below(bm, k) == 0,
    decreases k,
{
    if k > 0 {
        lemma_full_below(bm, k - 1);
    }
}

} // verus!
