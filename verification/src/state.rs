use crate::bitmap::{bit, MAX_MEMBERS};
use vstd::prelude::*;

verus! {

/// Immutable parameters fixed when the circle is created. Identities (the
/// owner and the token asset) are the plain numeric handles under which the
/// host knows them.
#[derive(Clone, Copy, Debug)]
pub struct CircleConfig {
    pub owner: u64,
    pub token_asset: u64,
    /// Fixed amount each member deposits per cycle, in integral ledger units.
    pub deposit_amount: i128,
    /// Minimum spacing between two cycle executions.
    pub cycle_interval_secs: u64,
    /// Length of the enrollment window, measured from the circle's time anchor.
    pub join_deadline_secs: u64,
}

/// The singleton circle record: configuration, the enrolled members in
/// enrollment order, and the running cycle bookkeeping.
#[derive(Clone, Debug)]
pub struct CircleState {
    pub config: CircleConfig,
    /// Participant identities, in enrollment order; index = bitmap bit.
    pub members: Vec<u64>,
    /// Cycle counter, starting at 1 and increasing by one per execution.
    pub current_cycle: u32,
    /// Index into `members` of the next payout recipient.
    pub next_payout_index: u32,
    /// One bit per member index, set when that member has deposited for the
    /// active cycle; cleared at cycle rollover.
    pub deposits_bitmap: u32,
    pub is_paused: bool,
    pub is_open_for_joining: bool,
}

/// Reputation and penalty ledger of one participant identity.
#[derive(Clone, Copy, Debug, PartialEq, Eq, Structural)]
pub struct MemberState {
    /// Starts at 10; +1 per on-time deposit, -1 per missed cycle, never below 0.
    pub reputation_score: u32,
    /// Positive: claimable balance. Negative: outstanding fine.
    pub penalties_accrued: i128,
    /// Cycle number of the member's last successful deposit.
    pub last_deposit_cycle: u32,
}

/// Storage keys of the persisted surface the host keeps between invocations:
/// the circle record, one member record per identity, and the timestamp of
/// the last executed cycle.
#[derive(Clone, Debug)]
pub enum DataKey {
    Circle,
    MemberRep(u64),
    LastCycleTime,
}

/// The record an identity starts from the first time it is read.
pub open spec fn default_member_state() -> MemberState {
    MemberState { reputation_score: 10, penalties_accrued: 0, last_deposit_cycle: 0 }
}

/// Reputation increment, saturating at the top of the score's range.
pub open spec fn sat_inc(x: u32) -> u32 {
    if x < u32::MAX {
        (x + 1) as u32
    } else {
        x
    }
}

/// Reputation decrement, saturating at 0: a score never goes negative.
pub open spec fn sat_dec(x: u32) -> u32 {
    if x > 0 {
        (x - 1) as u32
    } else {
        0
    }
}

/// Fine charged to a member who misses a cycle: a flat twenty percent of one
/// deposit, computed with truncating integer division.
pub open spec fn penalty_unit(amount: i128) -> int {
    (amount as int / 100) * 20
}

/// One member's record after a cycle's penalty assessment: a member whose bit
/// was clear is fined `unit` and loses one reputation point (saturating).
pub open spec fn member_assessed(m: MemberState, deposited: bool, unit: int) -> MemberState {
    MemberState {
        reputation_score: if deposited {
            m.reputation_score
        } else {
            sat_dec(m.reputation_score)
        },
        penalties_accrued: if deposited {
            m.penalties_accrued
        } else {
            (m.penalties_accrued - unit) as i128
        },
        last_deposit_cycle: m.last_deposit_cycle,
    }
}

/// One member's record after a full cycle: penalty assessment followed by the
/// equal redistribution of the pooled penalties, `share` to every member.
pub open spec fn member_after_cycle(m: MemberState, deposited: bool, unit: int, share: int) -> MemberState {
    MemberState {
        penalties_accrued: (member_assessed(m, deposited, unit).penalties_accrued + share) as i128,
        ..member_assessed(m, deposited, unit)
    }
}

/// What a claim pays out: the full balance when it is positive, nothing
/// otherwise.
pub open spec fn claim_payout(pen: i128) -> i128 {
    if pen > 0 {
        pen
    } else {
        0
    }
}

/// A member's balance after a claim: reset to 0 when it was positive,
/// untouched otherwise.
pub open spec fn pen_after_claim(pen: i128) -> i128 {
    if pen > 0 {
        0
    } else {
        pen
    }
}

impl CircleState {
    /// Well-formedness, established at creation and preserved by every
    /// operation: the group fits the bitmap, the payout index stays in range,
    /// no bit beyond the group is ever set, members are distinct, and the
    /// configured deposit is positive.
    pub open spec fn wf(self) -> bool {
        &&& self.members@.len() <= MAX_MEMBERS
        &&& self.members@.len() > 0 ==> (self.next_payout_index as int) < self.members@.len()
        &&& self.members@.len() == 0 ==> self.next_payout_index == 0
        &&& forall|i: int| self.members@.len() <= i < 32 ==> !bit(self.deposits_bitmap, i)
        &&& forall|i: int, j: int|
            0 <= i < j < self.members@.len() ==> self.members@[i] != self.members@[j]
        &&& self.config.deposit_amount > 0
    }
}

} // verus!
