use crate::bitmap::{bit, deposited_below, lemma_counts_split, lemma_full_below, missed_below};
use crate::state::{claim_payout, pen_after_claim, sat_dec, CircleState};
use vstd::prelude::*;

verus! {

/// A reputation score after `k` consecutive missed cycles.
pub open spec fn score_after_missed(x: u32, k: nat) -> u32
    decreases k,
{
    if k == 0 {
        x
    } else {
        sat_dec(score_after_missed(x, (k - 1) as nat))
    }
}

/// Reputation bound: however many consecutive cycles a member misses, the
/// saturating decrement stops the score exactly at 0 and never drives it
/// below.
pub proof fn lemma_reputation_bound(x: u32, k: nat)
    ensures
        score_after_missed(x, k) == if x >= k {
            (x - k) as u32
        } else {
            0u32
        },
        score_after_missed(x, k) >= 0,
    decreases k,
{
    if k > 0 {
        lemma_reputation_bound(x, (k - 1) as nat);
    }
}

/// Bitmap width: a well-formed circle holds at most 32 members, and no bit
/// at or beyond the member count — in particular no bit at index 32 or
/// above — is ever set.
pub proof fn lemma_bitmap_width(c: CircleState)
    requires
        c.wf(),
    ensures
        c.members@.len() <= 32,
        forall|i: int| i >= c.members@.len() ==> !bit(c.deposits_bitmap, i),
{
}

/// Conservation under full participation: when every member's bit is set
/// before execution, the amount collected for the cycle (one deposit per set
/// bit) equals the pot paid to the recipient, so the custodial balance is
/// unchanged net of the cycle; and no fines are pooled at all.
pub proof fn lemma_full_participation_conservation(bm: u32, n: int, amount: i128)
    requires
        0 <= n <= 32,
        amount > 0,
        forall|i: int| 0 <= i < n ==> bit(bm, i),
    ensures
        amount * deposited_below(bm, n) == amount * n,
        missed_below(bm, n) == 0,
{
    lemma_full_below(bm, n);
    lemma_counts_split(bm, n);
}

/// Idempotent claim: with no intervening penalty event, the first claim
/// leaves a non-negative balance at zero, and a second claim pays nothing
/// and changes nothing, whatever the starting balance was.
pub proof fn lemma_claim_idempotent(pen: i128)
    ensures
        pen >= 0 ==> pen_after_claim(pen) == 0,
        claim_payout(pen_after_claim(pen)) == 0,
        pen_after_claim(pen_after_claim(pen)) == pen_after_claim(pen),
{
}

} // verus!
