use crate::bitmap::{bit, lemma_zero_bit, missed_below, MAX_MEMBERS};
use crate::errors::Error;
use crate::registry::{lemma_sum_after_cycle, sum_penalties, MemberRegistry};
use crate::state::{
    member_after_cycle, member_assessed, penalty_unit, CircleConfig, CircleState, MemberState,
};
use vstd::arithmetic::div_mod::{
    lemma_div_is_ordered, lemma_div_is_ordered_by_denominator, lemma_div_multiples_vanish,
    lemma_div_pos_is_pos, lemma_fundamental_div_mod, lemma_mod_bound,
};
use vstd::prelude::*;

verus! {

/// Index of the first occurrence of `id` in `s`, or `s.len()` when absent.
pub open spec fn idx_of(s: Seq<u64>, id: u64) -> int
    decreases s.len(),
{
    if s.len() == 0 {
        0
    } else if s[0] == id {
        0
    } else {
        1 + idx_of(s.drop_first(), id)
    }
}

/// `idx_of` points at the first occurrence, and equals the length exactly
/// when `id` is absent.
pub proof fn lemma_idx_of(s: Seq<u64>, id: u64)
    ensures
        0 <= idx_of(s, id) <= s.len(),
        s.contains(id) <==> idx_of(s, id) < s.len(),
        idx_of(s, id) < s.len() ==> s[idx_of(s, id)] == id,
        forall|k: int| 0 <= k < idx_of(s, id) ==> s[k] != id,
    decreases s.len(),
{
    if s.len() > 0 && s[0] != id {
        lemma_idx_of(s.drop_first(), id);
        assert(s.contains(id) ==> s.drop_first().contains(id)) by {
            if s.contains(id) {
                let k = choose|k: int| 0 <= k < s.len() && s[k] == id;
                assert(s.drop_first()[k - 1] == id);
            }
        }
        if s.drop_first().contains(id) {
            assert(s.contains(id)) by {
                let k = idx_of(s.drop_first(), id);
                assert(s[k + 1] == id);
            }
        }
        assert forall|k: int| 0 <= k < idx_of(s, id) implies s[k] != id by {
            if k > 0 {
                assert(s.drop_first()[k - 1] == s[k]);
            }
        }
    }
}

/// Index of `member` in the enrollment order, or `NotMember` when the
/// identity is not enrolled.
pub fn get_member_index(members: &Vec<u64>, member: u64) -> (r: Result<u32, Error>)
    requires
        members@.len() <= MAX_MEMBERS,
    ensures
        match r {
            Ok(i) => i as int == idx_of(members@, member) && (i as int) < members@.len()
                && members@[i as int] == member,
            Err(e) => e == Error::NotMember && !members@.contains(member),
        },
{
    proof {
        lemma_idx_of(members@, member);
    }
    let n: usize = members.len();
    let mut i: usize = 0;
    while i < n
        invariant
            i <= n,
            n == members@.len(),
            n <= MAX_MEMBERS,
            forall|k: int| 0 <= k < i ==> members@[k] != member,
            idx_of(members@, member) < members@.len() ==> members@[idx_of(members@, member)]
                == member,
            forall|k: int| 0 <= k < idx_of(members@, member) ==> members@[k] != member,
            0 <= idx_of(members@, member) <= members@.len(),
            members@.contains(member) <==> idx_of(members@, member) < members@.len(),
        decreases n - i,
    {
        if members[i] == member {
            proof {
                assert(idx_of(members@, member) >= i);
                assert(idx_of(members@, member) <= i) by {
                    if idx_of(members@, member) > i {
                        assert(members@[i as int] != member);
                    }
                }
            }
            return Ok(i as u32);
        }
        i = i + 1;
    }
    proof {
        if members@.contains(member) {
            assert(members@[idx_of(members@, member)] == member);
        }
    }
    Err(Error::NotMember)
}

/// A fresh vector holding the same identities.
fn copy_members(src: &Vec<u64>) -> (out: Vec<u64>)
    ensures
        out@ == src@,
{
    let n: usize = src.len();
    let mut out: Vec<u64> = Vec::new();
    let mut i: usize = 0;
    while i < n
        invariant
            i <= n,
            n == src@.len(),
            out@ == src@.take(i as int),
        decreases n - i,
    {
        out.push(src[i]);
        proof {
            assert(out@ =~= src@.take(i + 1));
        }
        i = i + 1;
    }
    proof {
        assert(src@.take(n as int) =~= src@);
    }
    out
}

/// The whole persisted surface of one deployment: the singleton circle
/// record (present once `created`), the per-identity ledger records, and the
/// timestamp of the last executed cycle (0 before the first execution, also
/// the anchor of the enrollment window).
#[derive(Clone)]
pub struct SavingsCircle {
    pub created: bool,
    pub state: CircleState,
    pub last_cycle_time: u64,
    pub registry: MemberRegistry,
}

impl SavingsCircle {
    /// Well-formedness of the whole deployment.
    pub open spec fn wf(self) -> bool {
        &&& self.registry.wf()
        &&& self.created ==> self.state.wf()
    }

    /// The ledger state the deployment holds for `id`.
    pub open spec fn member_state(self, id: u64) -> MemberState {
        self.registry.spec_get(id)
    }

    /// The pot paid to a cycle's recipient: the configured deposit times the
    /// whole group size, computed from the configuration rather than from
    /// what was actually collected.
    pub open spec fn pot(self) -> int {
        self.state.config.deposit_amount * self.state.members@.len()
    }

    /// Total of the fines assessed in the active cycle: one penalty unit per
    /// member whose bit is clear.
    pub open spec fn pooled_penalties(self) -> int {
        penalty_unit(self.state.config.deposit_amount) * missed_below(
            self.state.deposits_bitmap,
            self.state.members@.len() as int,
        )
    }

    /// Equal share of the pooled fines credited to every member; the
    /// truncation remainder is absorbed by the system, never re-credited.
    pub open spec fn penalty_share(self) -> int {
        if self.pooled_penalties() > 0 {
            self.pooled_penalties() / (self.state.members@.len() as int)
        } else {
            0
        }
    }

    /// Whether enough time has passed to run the next cycle; the very first
    /// execution is always ready.
    pub open spec fn cycle_ready(self, now: u64) -> bool {
        self.last_cycle_time == 0 || now >= self.last_cycle_time
            + self.state.config.cycle_interval_secs
    }

    /// Room the executor needs around a member's balance so that one fine
    /// and one credited share never leave the balance's range.
    pub open spec fn pen_within(self, i: int) -> bool {
        i128::MIN + self.state.config.deposit_amount <= self.member_state(
            self.state.members@[i],
        ).penalties_accrued <= i128::MAX - self.state.config.deposit_amount
    }
}

/// Whether `post` holds, for the member at index `i` of `pre`'s roster,
/// exactly the record that one executed cycle of `pre` leaves behind.
pub open spec fn member_cycled(pre: SavingsCircle, post: SavingsCircle, i: int) -> bool {
    post.member_state(pre.state.members@[i]) == member_after_cycle(
        pre.member_state(pre.state.members@[i]),
        bit(pre.state.deposits_bitmap, i),
        penalty_unit(pre.state.config.deposit_amount),
        pre.penalty_share(),
    )
}

impl SavingsCircle {

    /// A fresh deployment: no circle yet, no ledger records, clock anchor 0.
    pub fn new() -> (r: SavingsCircle)
        ensures
            r.wf(),
            !r.created,
            r.last_cycle_time == 0,
            forall|id: u64| r.member_state(id) == crate::state::default_member_state(),
    {
        SavingsCircle {
            created: false,
            state: CircleState {
                config: CircleConfig {
                    owner: 0,
                    token_asset: 0,
                    deposit_amount: 1,
                    cycle_interval_secs: 0,
                    join_deadline_secs: 0,
                },
                members: Vec::new(),
                current_cycle: 0,
                next_payout_index: 0,
                deposits_bitmap: 0,
                is_paused: false,
                is_open_for_joining: false,
            },
            last_cycle_time: 0,
            registry: MemberRegistry::new(),
        }
    }

    /// Whether `now` lies past the enrollment window, whose anchor is the
    /// stored last-execution time (0 until a cycle has run).
    pub open spec fn join_deadline_over(self, now: u64) -> bool {
        now > self.last_cycle_time + self.state.config.join_deadline_secs
    }

    /// Enrolls the authenticated caller, assigning the next bitmap index.
    /// The caller must have been authenticated by the host as `member`; `now`
    /// is the host clock, sampled once for the invocation. A group that has
    /// reached the bitmap's width (32 members) turns further joins away with
    /// `JoinDeadlinePassed`, the same kind that a closed window reports:
    /// the bitmap cannot represent a 33rd member.
    pub fn join_circle(&mut self, member: u64, now: u64) -> (r: Result<(), Error>)
        requires
            old(self).wf(),
            old(self).created,
            old(self).last_cycle_time + old(self).state.config.join_deadline_secs <= u64::MAX,
        ensures
            final(self).wf(),
            final(self).created,
            final(self).registry == old(self).registry,
            final(self).last_cycle_time == old(self).last_cycle_time,
            old(self).state.is_paused
                ==> r == Err::<(), Error>(Error::Paused) && *final(self) == *old(self),
            !old(self).state.is_paused && !old(self).state.is_open_for_joining
                ==> r == Err::<(), Error>(Error::JoinDeadlinePassed) && *final(self) == *old(self),
            (!old(self).state.is_paused && old(self).state.is_open_for_joining
                && old(self).join_deadline_over(now))
                ==> r == Err::<(), Error>(Error::JoinDeadlinePassed)
                    && final(self).state
                        == (CircleState { is_open_for_joining: false, ..old(self).state }),
            (!old(self).state.is_paused && old(self).state.is_open_for_joining
                && !old(self).join_deadline_over(now)) ==> {
                &&& old(self).state.members@.contains(member)
                    ==> r == Err::<(), Error>(Error::AlreadyJoined) && *final(self) == *old(self)
                &&& (!old(self).state.members@.contains(member)
                    && old(self).state.members@.len() >= MAX_MEMBERS)
                    ==> r == Err::<(), Error>(Error::JoinDeadlinePassed)
                        && *final(self) == *old(self)
                &&& (!old(self).state.members@.contains(member)
                    && old(self).state.members@.len() < MAX_MEMBERS)
                    ==> r == Ok::<(), Error>(())
                        && final(self).state
                            == (CircleState { members: final(self).state.members, ..old(self).state })
                        && final(self).state.members@ == old(self).state.members@.push(member)
            },
    {
        if self.state.is_paused {
            return Err(Error::Paused);
        }
        if !self.state.is_open_for_joining {
            return Err(Error::JoinDeadlinePassed);
        }
        if now > self.last_cycle_time + self.state.config.join_deadline_secs {
            self.state.is_open_for_joining = false;
            return Err(Error::JoinDeadlinePassed);
        }
        match get_member_index(&self.state.members, member) {
            Ok(_) => {
                return Err(Error::AlreadyJoined);
            },
            Err(_) => {},
        }
        if self.state.members.len() >= MAX_MEMBERS {
            return Err(Error::JoinDeadlinePassed);
        }
        let ghost before = self.state.members@;
        self.state.members.push(member);
        proof {
            assert forall|i: int| self.state.members@.len() <= i < 32 implies !bit(
                self.state.deposits_bitmap,
                i,
            ) by {
                assert(before.len() <= i);
            }
            assert forall|i: int, j: int|
                0 <= i < j < self.state.members@.len() implies self.state.members@[i]
                != self.state.members@[j] by {
                if j == before.len() {
                    assert(before.contains(self.state.members@[i])) by {
                        assert(before[i] == self.state.members@[i]);
                    }
                }
            }
        }
        Ok(())
    }

    /// Records the authenticated caller's deposit for the active cycle and
    /// returns the amount the host's token service must move from the caller
    /// to the custodial balance. The caller must have been authenticated by
    /// the host as `depositor`; the host aborts the whole invocation if the
    /// transfer fails.
    pub fn deposit(&mut self, depositor: u64) -> (r: Result<i128, Error>)
        requires
            old(self).wf(),
            old(self).created,
        ensures
            final(self).wf(),
            final(self).created,
            final(self).last_cycle_time == old(self).last_cycle_time,
            old(self).state.is_paused ==> r == Err::<i128, Error>(Error::Paused) && *final(self)
                == *old(self),
            (!old(self).state.is_paused && !old(self).state.members@.contains(depositor)) ==> r
                == Err::<i128, Error>(Error::NotMember) && *final(self) == *old(self),
            (!old(self).state.is_paused && old(self).state.members@.contains(depositor) && bit(
                old(self).state.deposits_bitmap,
                idx_of(old(self).state.members@, depositor),
            )) ==> r == Err::<i128, Error>(Error::DepositAlreadyMade) && *final(self) == *old(self),
            (!old(self).state.is_paused && old(self).state.members@.contains(depositor) && !bit(
                old(self).state.deposits_bitmap,
                idx_of(old(self).state.members@, depositor),
            )) ==> {
                &&& r == Ok::<i128, Error>(old(self).state.config.deposit_amount)
                &&& forall|j: int|
                    0 <= j < 32 ==> bit(final(self).state.deposits_bitmap, j) == (j == idx_of(
                        old(self).state.members@,
                        depositor,
                    ) || bit(old(self).state.deposits_bitmap, j))
                &&& final(self).state == (CircleState {
                    deposits_bitmap: final(self).state.deposits_bitmap,
                    ..old(self).state
                })
                &&& final(self).member_state(depositor) == (MemberState {
                    reputation_score: crate::state::sat_inc(
                        old(self).member_state(depositor).reputation_score,
                    ),
                    penalties_accrued: old(self).member_state(depositor).penalties_accrued,
                    last_deposit_cycle: old(self).state.current_cycle,
                })
                &&& forall|o: u64|
                    o != depositor ==> final(self).member_state(o) == old(self).member_state(o)
            },
    {
        if self.state.is_paused {
            return Err(Error::Paused);
        }
        let member_index: u32 = match get_member_index(&self.state.members, depositor) {
            Ok(i) => i,
            Err(e) => {
                return Err(e);
            },
        };
        if (self.state.deposits_bitmap >> member_index) & 1u32 == 1u32 {
            return Err(Error::DepositAlreadyMade);
        }
        let ghost bm0 = self.state.deposits_bitmap;
        self.state.deposits_bitmap = self.state.deposits_bitmap | (1u32 << member_index);
        proof {
            assert forall|j: int| 0 <= j < 32 implies bit(self.state.deposits_bitmap, j) == (j
                == member_index as int || bit(bm0, j)) by {
                crate::bitmap::lemma_set_bit(bm0, member_index, j);
            }
        }
        let mut m: MemberState = self.registry.get(depositor);
        m.reputation_score = if m.reputation_score < u32::MAX {
            m.reputation_score + 1
        } else {
            m.reputation_score
        };
        m.last_deposit_cycle = self.state.current_cycle;
        self.registry.set(depositor, m);
        proof {
            assert forall|i: int| self.state.members@.len() <= i < 32 implies !bit(
                self.state.deposits_bitmap,
                i,
            ) by {
                crate::bitmap::lemma_set_bit(bm0, member_index, i);
            }
        }
        Ok(self.state.config.deposit_amount)
    }

    /// Creates the circle; only one creation ever succeeds per deployment.
    /// The caller must have been authenticated by the host as `owner`. The
    /// initial roster is advisory only: it enrolls nobody, each member must
    /// individually join before the deadline.
    #[allow(unused_variables)]
    pub fn create_circle(
        &mut self,
        owner: u64,
        token_asset: u64,
        deposit_amount: i128,
        initial_roster: Vec<u64>,
        cycle_interval_secs: u64,
        join_deadline_secs: u64,
    ) -> (r: Result<(), Error>)
        requires
            old(self).wf(),
            deposit_amount > 0,
        ensures
            final(self).wf(),
            old(self).created ==> r == Err::<(), Error>(Error::CircleExists) && *final(self)
                == *old(self),
            !old(self).created ==> {
                &&& r == Ok::<(), Error>(())
                &&& final(self).created
                &&& final(self).state.config == (CircleConfig {
                    owner,
                    token_asset,
                    deposit_amount,
                    cycle_interval_secs,
                    join_deadline_secs,
                })
                &&& final(self).state.members@ == Seq::<u64>::empty()
                &&& final(self).state.current_cycle == 1
                &&& final(self).state.next_payout_index == 0
                &&& final(self).state.deposits_bitmap == 0
                &&& !final(self).state.is_paused
                &&& final(self).state.is_open_for_joining
                &&& final(self).registry == old(self).registry
                &&& final(self).last_cycle_time == old(self).last_cycle_time
            },
    {
        if self.created {
            return Err(Error::CircleExists);
        }
        self.created = true;
        self.state = CircleState {
            config: CircleConfig {
                owner,
                token_asset,
                deposit_amount,
                cycle_interval_secs,
                join_deadline_secs,
            },
            members: Vec::new(),
            current_cycle: 1,
            next_payout_index: 0,
            deposits_bitmap: 0,
            is_paused: false,
            is_open_for_joining: true,
        };
        proof {
            assert forall|i: int| self.state.members@.len() <= i < 32 implies !bit(
                self.state.deposits_bitmap,
                i,
            ) by {
                crate::bitmap::lemma_zero_bit(i);
            }
        }
        Ok(())
    }

    /// Pays out the authenticated caller's claimable balance and returns the
    /// amount the host's token service must move from the custodial balance
    /// to the caller: the full positive balance, or 0 when nothing is
    /// claimable (a zero or negative balance is a silent no-op, not an
    /// error). The caller must have been authenticated by the host as
    /// `member`; the host aborts the whole invocation if the transfer fails.
    pub fn claim_refund(&mut self, member: u64) -> (r: Result<i128, Error>)
        requires
            old(self).wf(),
            old(self).created,
        ensures
            final(self).wf(),
            final(self).created,
            final(self).state == old(self).state,
            final(self).last_cycle_time == old(self).last_cycle_time,
            r == Ok::<i128, Error>(
                crate::state::claim_payout(old(self).member_state(member).penalties_accrued),
            ),
            final(self).member_state(member) == (MemberState {
                penalties_accrued: crate::state::pen_after_claim(
                    old(self).member_state(member).penalties_accrued,
                ),
                ..old(self).member_state(member)
            }),
            forall|o: u64| o != member ==> final(self).member_state(o) == old(self).member_state(o),
    {
        let mut m: MemberState = self.registry.get(member);
        if m.penalties_accrued <= 0 {
            return Ok(0);
        }
        let amount: i128 = m.penalties_accrued;
        m.penalties_accrued = 0;
        self.registry.set(member, m);
        Ok(amount)
    }

    /// Executes the due cycle: fines every member whose bit is clear (one
    /// penalty unit, a flat twenty percent of one deposit), lowers their
    /// reputation, credits every member an equal share of the pooled fines,
    /// pays the rotating recipient the full pot, advances the cycle counter
    /// and the rotation, and clears the bitmap. Callable by any party, as a
    /// permissionless tick; `now` is the host clock, sampled once. Returns
    /// the payout instruction (recipient identity and pot amount) the host's
    /// token service must perform from the custodial balance; the host
    /// aborts the whole invocation if that balance cannot cover it.
    pub fn execute_cycle(&mut self, now: u64) -> (r: Result<(u64, i128), Error>)
        requires
            old(self).wf(),
            old(self).created,
            old(self).last_cycle_time + old(self).state.config.cycle_interval_secs <= u64::MAX,
            (!old(self).state.is_paused && old(self).state.members@.len() > 0 && old(
                self,
            ).cycle_ready(now)) ==> {
                &&& old(self).state.current_cycle < u32::MAX
                &&& old(self).pot() <= i128::MAX
                &&& forall|i: int|
                    0 <= i < old(self).state.members@.len() ==> #[trigger] old(self).pen_within(i)
            },
        ensures
            final(self).wf(),
            final(self).created,
            old(self).state.is_paused ==> r == Err::<(u64, i128), Error>(Error::Paused)
                && *final(self) == *old(self),
            (!old(self).state.is_paused && old(self).state.members@.len() == 0) ==> r == Err::<
                (u64, i128),
                Error,
            >(Error::NotFound) && *final(self) == *old(self),
            ({
                let pre = *old(self);
                (!pre.state.is_paused && pre.state.members@.len() > 0 && !pre.cycle_ready(now))
                    ==> r == Err::<(u64, i128), Error>(Error::CycleNotReady) && *final(self) == pre
            }),
            ({
                let pre = *old(self);
                let post = *final(self);
                let n = pre.state.members@.len() as int;
                (!pre.state.is_paused && n > 0 && pre.cycle_ready(now)) ==> {
                    &&& r == Ok::<(u64, i128), Error>(
                        (
                            pre.state.members@[pre.state.next_payout_index as int],
                            pre.pot() as i128,
                        ),
                    )
                    &&& post.state.current_cycle == pre.state.current_cycle + 1
                    &&& post.state.next_payout_index as int == (pre.state.next_payout_index + 1)
                        % n
                    &&& post.state.deposits_bitmap == 0
                    &&& post.state.members@ == pre.state.members@
                    &&& post.state.config == pre.state.config
                    &&& post.state.is_paused == pre.state.is_paused
                    &&& post.state.is_open_for_joining == pre.state.is_open_for_joining
                    &&& post.last_cycle_time == now
                    &&& forall|i: int| 0 <= i < n ==> #[trigger] member_cycled(pre, post, i)
                    &&& forall|o: u64|
                        !pre.state.members@.contains(o) ==> post.member_state(o)
                            == pre.member_state(o)
                    &&& sum_penalties(post.registry, pre.state.members@) == sum_penalties(
                        pre.registry,
                        pre.state.members@,
                    ) - pre.pooled_penalties() % n
                }
            }),
    {
        if self.state.is_paused {
            return Err(Error::Paused);
        }
        let n: usize = self.state.members.len();
        if n == 0 {
            return Err(Error::NotFound);
        }
        let last: u64 = self.last_cycle_time;
        if last != 0 && now < last + self.state.config.cycle_interval_secs {
            return Err(Error::CycleNotReady);
        }
        let amount: i128 = self.state.config.deposit_amount;
        let ghost members_g = self.state.members@;
        let ghost bm_g = self.state.deposits_bitmap;
        let ghost unit_g = penalty_unit(amount);
        let ghost n_g = n as int;

        // The flat fine for a missed deposit: twenty percent of one deposit.
        let base: u128 = (amount as u128) / 100;
        proof {
            lemma_fundamental_div_mod(amount as int, 100);
            lemma_mod_bound(amount as int, 100);
            lemma_div_pos_is_pos(amount as int, 100);
            assert(base as int == amount as int / 100);
            assert(100 * (base as int) <= amount as int);
            assert(unit_g == (base as int) * 20);
        }
        let unit: i128 = (base * 20) as i128;
        proof {
            assert(unit as int == unit_g);
            assert(0 <= unit_g <= amount as int);
            assert((amount as int) * n_g <= i128::MAX);
            assert((amount as int) * n_g > 0) by (nonlinear_arith)
                requires
                    amount > 0,
                    n_g >= 1,
            ;
        }
        let total_pot: i128 = amount * (n as i128);
        let recipient: u64 = self.state.members[self.state.next_payout_index as usize];

        let mut pooled: i128 = 0;
        let mut i: usize = 0;
        proof {
            assert(unit_g * 0 == 0) by (nonlinear_arith);
        }
        while i < n
            invariant
                old(self).wf(),
                old(self).created,
                !old(self).state.is_paused,
                self.created,
                self.registry.wf(),
                self.state == old(self).state,
                self.last_cycle_time == old(self).last_cycle_time,
                n_g == n as int,
                n == members_g.len(),
                1 <= n <= 32,
                i <= n,
                amount == old(self).state.config.deposit_amount,
                members_g == old(self).state.members@,
                bm_g == old(self).state.deposits_bitmap,
                unit as int == unit_g,
                unit_g == penalty_unit(amount),
                0 <= unit_g <= amount as int,
                (amount as int) * n_g <= i128::MAX,
                forall|k: int| 0 <= k < n_g ==> #[trigger] old(self).pen_within(k),
                pooled as int == unit_g * missed_below(bm_g, i as int),
                0 <= pooled,
                pooled as int <= unit_g * (i as int),
                forall|k: int|
                    0 <= k < i ==> #[trigger] self.registry.spec_get(members_g[k])
                        == member_assessed(
                        old(self).registry.spec_get(members_g[k]),
                        bit(bm_g, k),
                        unit_g,
                    ),
                forall|k: int|
                    i <= k < n_g ==> #[trigger] self.registry.spec_get(members_g[k]) == old(
                        self,
                    ).registry.spec_get(members_g[k]),
                forall|o: u64|
                    !members_g.contains(o) ==> self.registry.spec_get(o) == old(
                        self,
                    ).registry.spec_get(o),
            decreases n - i,
        {
            let member_addr: u64 = self.state.members[i];
            let deposited: bool = (self.state.deposits_bitmap >> (i as u32)) & 1u32 == 1u32;
            proof {
                assert(deposited == bit(bm_g, i as int));
                assert(members_g.contains(member_addr)) by {
                    assert(members_g[i as int] == member_addr);
                }
            }
            if !deposited {
                let mut m: MemberState = self.registry.get(member_addr);
                proof {
                    assert(m == old(self).registry.spec_get(members_g[i as int]));
                    assert(old(self).pen_within(i as int));
                }
                m.penalties_accrued = m.penalties_accrued - unit;
                m.reputation_score = if m.reputation_score > 0 {
                    m.reputation_score - 1
                } else {
                    0
                };
                self.registry.set(member_addr, m);
                proof {
                    assert(pooled + unit <= i128::MAX) by (nonlinear_arith)
                        requires
                            0 <= pooled,
                            pooled as int <= unit_g * (i as int),
                            unit as int == unit_g,
                            0 <= unit_g,
                            unit_g <= amount as int,
                            i + 1 <= n_g,
                            0 < amount,
                            (amount as int) * n_g <= i128::MAX,
                    ;
                }
                pooled = pooled + unit;
            }
            proof {
                let i_ = i as int;
                assert(missed_below(bm_g, i_ + 1) == missed_below(bm_g, i_) + if bit(bm_g, i_) {
                    0int
                } else {
                    1int
                });
                assert(unit_g * (missed_below(bm_g, i_) + (if bit(bm_g, i_) {
                    0int
                } else {
                    1int
                })) == unit_g * missed_below(bm_g, i_) + (if bit(bm_g, i_) {
                    0int
                } else {
                    unit_g
                })) by (nonlinear_arith);
                assert(unit_g * (i_ + 1) == unit_g * i_ + unit_g) by (nonlinear_arith);
                assert forall|k: int|
                    0 <= k < i_ + 1 implies #[trigger] self.registry.spec_get(members_g[k])
                    == member_assessed(
                    old(self).registry.spec_get(members_g[k]),
                    bit(bm_g, k),
                    unit_g,
                ) by {
                    if k < i_ {
                        assert(members_g[k] != members_g[i_]);
                    } else {
                        if bit(bm_g, i_) {
                            assert(member_assessed(
                                old(self).registry.spec_get(members_g[i_]),
                                true,
                                unit_g,
                            ) == old(self).registry.spec_get(members_g[i_]));
                        }
                    }
                }
                assert forall|k: int|
                    i_ + 1 <= k < n_g implies #[trigger] self.registry.spec_get(members_g[k])
                    == old(self).registry.spec_get(members_g[k]) by {
                    assert(members_g[k] != members_g[i_]);
                }
            }
            i = i + 1;
        }
        proof {
            assert(pooled as int == old(self).pooled_penalties());
        }
        let share: i128 = if pooled > 0 {
            proof {
                crate::bitmap::lemma_counts_split(bm_g, n_g);
                lemma_div_pos_is_pos(pooled as int, n_g);
                lemma_div_is_ordered_by_denominator(pooled as int, 1, n_g);
                vstd::arithmetic::div_mod::lemma_div_basics(pooled as int);
                assert(pooled as int <= unit_g * n_g) by (nonlinear_arith)
                    requires
                        pooled as int == unit_g * missed_below(bm_g, n_g),
                        0 <= missed_below(bm_g, n_g) <= n_g,
                        0 <= unit_g,
                ;
                lemma_div_is_ordered(pooled as int, unit_g * n_g, n_g);
                lemma_div_multiples_vanish(unit_g, n_g);
                assert(n_g * unit_g == unit_g * n_g) by (nonlinear_arith);
            }
            ((pooled as u128) / (n as u128)) as i128
        } else {
            0
        };
        proof {
            crate::bitmap::lemma_counts_split(bm_g, n_g);
            if pooled > 0 {
                assert(share as int == (pooled as int) / n_g);
                assert(share as int == old(self).penalty_share());
                assert(0 <= share as int <= unit_g);
            } else {
                assert(old(self).penalty_share() == 0);
                assert(share == 0);
            }
        }
        if pooled > 0 {
            let mut i: usize = 0;
            while i < n
                invariant
                    old(self).wf(),
                    old(self).created,
                    !old(self).state.is_paused,
                    self.created,
                    self.registry.wf(),
                    self.state == old(self).state,
                    self.last_cycle_time == old(self).last_cycle_time,
                    n_g == n as int,
                    n == members_g.len(),
                    1 <= n <= 32,
                    i <= n,
                    amount == old(self).state.config.deposit_amount,
                    members_g == old(self).state.members@,
                    bm_g == old(self).state.deposits_bitmap,
                    unit as int == unit_g,
                    unit_g == penalty_unit(amount),
                    0 <= unit_g <= amount as int,
                    0 <= share as int <= unit_g,
                    share as int == old(self).penalty_share(),
                    forall|k: int| 0 <= k < n_g ==> #[trigger] old(self).pen_within(k),
                    forall|k: int|
                        0 <= k < i ==> #[trigger] self.registry.spec_get(members_g[k])
                            == member_after_cycle(
                            old(self).registry.spec_get(members_g[k]),
                            bit(bm_g, k),
                            unit_g,
                            share as int,
                        ),
                    forall|k: int|
                        i <= k < n_g ==> #[trigger] self.registry.spec_get(members_g[k])
                            == member_assessed(
                            old(self).registry.spec_get(members_g[k]),
                            bit(bm_g, k),
                            unit_g,
                        ),
                    forall|o: u64|
                        !members_g.contains(o) ==> self.registry.spec_get(o) == old(
                            self,
                        ).registry.spec_get(o),
                decreases n - i,
            {
                let member_addr: u64 = self.state.members[i];
                proof {
                    assert(members_g.contains(member_addr)) by {
                        assert(members_g[i as int] == member_addr);
                    }
                    assert(old(self).pen_within(i as int));
                }
                let mut m: MemberState = self.registry.get(member_addr);
                m.penalties_accrued = m.penalties_accrued + share;
                self.registry.set(member_addr, m);
                proof {
                    let i_ = i as int;
                    assert forall|k: int|
                        0 <= k < i_ + 1 implies #[trigger] self.registry.spec_get(members_g[k])
                        == member_after_cycle(
                        old(self).registry.spec_get(members_g[k]),
                        bit(bm_g, k),
                        unit_g,
                        share as int,
                    ) by {
                        if k < i_ {
                            assert(members_g[k] != members_g[i_]);
                        }
                    }
                    assert forall|k: int|
                        i_ + 1 <= k < n_g implies #[trigger] self.registry.spec_get(members_g[k])
                        == member_assessed(
                        old(self).registry.spec_get(members_g[k]),
                        bit(bm_g, k),
                        unit_g,
                    ) by {
                        assert(members_g[k] != members_g[i_]);
                    }
                }
                i = i + 1;
            }
        }
        self.state.current_cycle = self.state.current_cycle + 1;
        let next: u32 = self.state.next_payout_index + 1;
        self.state.next_payout_index = next % (n as u32);
        self.state.deposits_bitmap = 0;
        self.last_cycle_time = now;
        proof {
            lemma_mod_bound(next as int, n_g);
            assert forall|j: int| self.state.members@.len() <= j < 32 implies !bit(
                self.state.deposits_bitmap,
                j,
            ) by {
                lemma_zero_bit(j);
            }
            let pre = *old(self);
            let post = *self;
            assert forall|k: int| 0 <= k < n_g implies #[trigger] member_cycled(pre, post, k) by {
                assert(self.registry.spec_get(members_g[k]) == member_after_cycle(
                    old(self).registry.spec_get(members_g[k]),
                    bit(bm_g, k),
                    unit_g,
                    share as int,
                ));
            }
            assert forall|k: int|
                0 <= k < n_g implies post.registry.spec_get(members_g[k]).penalties_accrued as int
                == pre.registry.spec_get(members_g[k]).penalties_accrued - (if bit(bm_g, k) {
                0int
            } else {
                unit_g
            }) + share as int by {
                assert(old(self).pen_within(k));
            }
            lemma_sum_after_cycle(
                pre.registry,
                post.registry,
                members_g,
                bm_g,
                unit_g,
                share as int,
                n_g,
            );
            assert(members_g.take(n_g) =~= members_g);
            if pooled > 0 {
                lemma_fundamental_div_mod(pooled as int, n_g);
            } else {
                lemma_mod_bound(0, n_g);
                assert(n_g * (0int) == 0) by (nonlinear_arith);
                assert((0int) % n_g == 0) by {
                    lemma_fundamental_div_mod(0, n_g);
                    vstd::arithmetic::div_mod::lemma_div_basics(n_g);
                }
                assert(n_g * (share as int) == 0) by (nonlinear_arith)
                    requires
                        share as int == 0,
                ;
            }
            assert(pre.pot() as i128 == total_pot);
        }
        Ok((recipient, total_pot))
    }

    /// Halts every mutating operation; only the configured owner may call it.
    /// The caller must have been authenticated by the host as `caller`.
    pub fn pause(&mut self, caller: u64) -> (r: Result<(), Error>)
        requires
            old(self).wf(),
            old(self).created,
        ensures
            final(self).wf(),
            caller != old(self).state.config.owner ==> r == Err::<(), Error>(Error::NotOwner)
                && *final(self) == *old(self),
            caller == old(self).state.config.owner ==> {
                &&& r == Ok::<(), Error>(())
                &&& final(self).state == (CircleState { is_paused: true, ..old(self).state })
                &&& final(self).created == old(self).created
                &&& final(self).last_cycle_time == old(self).last_cycle_time
                &&& final(self).registry == old(self).registry
            },
    {
        if self.state.config.owner != caller {
            return Err(Error::NotOwner);
        }
        self.state.is_paused = true;
        Ok(())
    }

    /// Lifts the pause; only the configured owner may call it. The caller
    /// must have been authenticated by the host as `caller`.
    pub fn unpause(&mut self, caller: u64) -> (r: Result<(), Error>)
        requires
            old(self).wf(),
            old(self).created,
        ensures
            final(self).wf(),
            caller != old(self).state.config.owner ==> r == Err::<(), Error>(Error::NotOwner)
                && *final(self) == *old(self),
            caller == old(self).state.config.owner ==> {
                &&& r == Ok::<(), Error>(())
                &&& final(self).state == (CircleState { is_paused: false, ..old(self).state })
                &&& final(self).created == old(self).created
                &&& final(self).last_cycle_time == old(self).last_cycle_time
                &&& final(self).registry == old(self).registry
            },
    {
        if self.state.config.owner != caller {
            return Err(Error::NotOwner);
        }
        self.state.is_paused = false;
        Ok(())
    }

    /// A snapshot of the circle record, or `NotFound` before creation.
    pub fn get_circle(&self) -> (r: Result<CircleState, Error>)
        ensures
            !self.created ==> r == Err::<CircleState, Error>(Error::NotFound),
            self.created ==> match r {
                Ok(c) => {
                    &&& c.config == self.state.config
                    &&& c.members@ == self.state.members@
                    &&& c.current_cycle == self.state.current_cycle
                    &&& c.next_payout_index == self.state.next_payout_index
                    &&& c.deposits_bitmap == self.state.deposits_bitmap
                    &&& c.is_paused == self.state.is_paused
                    &&& c.is_open_for_joining == self.state.is_open_for_joining
                },
                Err(_) => false,
            },
    {
        if !self.created {
            return Err(Error::NotFound);
        }
        Ok(
            CircleState {
                config: self.state.config,
                members: copy_members(&self.state.members),
                current_cycle: self.state.current_cycle,
                next_payout_index: self.state.next_payout_index,
                deposits_bitmap: self.state.deposits_bitmap,
                is_paused: self.state.is_paused,
                is_open_for_joining: self.state.is_open_for_joining,
            },
        )
    }

    /// The ledger state of any identity; an identity never seen before reads
    /// as the default record, which is not persisted by the read.
    pub fn get_member_state(&self, member: u64) -> (r: Result<MemberState, Error>)
        requires
            self.wf(),
        ensures
            r == Ok::<MemberState, Error>(self.member_state(member)),
    {
        Ok(self.registry.get(member))
    }
}

} // verus!
