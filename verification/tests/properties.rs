use savings_circle::circle::SavingsCircle;
use savings_circle::errors::Error;

const ADMIN: u64 = 1;
const TOKEN: u64 = 7;

fn three_member_circle(deposit: i128, interval: u64) -> (SavingsCircle, [u64; 3]) {
    let members: [u64; 3] = [101, 102, 103];
    let mut sc = SavingsCircle::new();
    sc.create_circle(ADMIN, TOKEN, deposit, members.to_vec(), interval, 10)
        .unwrap();
    for m in members {
        sc.join_circle(m, 5).unwrap();
    }
    (sc, members)
}

#[test]
fn test_double_create_rejected() {
    let mut sc = SavingsCircle::new();
    sc.create_circle(ADMIN, TOKEN, 100, vec![], 100, 10).unwrap();
    let err = sc.create_circle(ADMIN, TOKEN, 100, vec![], 100, 10).unwrap_err();
    assert_eq!(err, Error::CircleExists);
}

#[test]
fn test_get_circle_before_create() {
    let sc = SavingsCircle::new();
    assert_eq!(sc.get_circle().unwrap_err(), Error::NotFound);
}

#[test]
fn test_execute_cycle_without_members() {
    let mut sc = SavingsCircle::new();
    sc.create_circle(ADMIN, TOKEN, 100, vec![], 100, 10).unwrap();
    assert_eq!(sc.execute_cycle(50).unwrap_err(), Error::NotFound);
}

#[test]
fn test_deposit_by_non_member() {
    let (mut sc, _members) = three_member_circle(100, 100);
    assert_eq!(sc.deposit(999).unwrap_err(), Error::NotMember);
}

#[test]
fn test_duplicate_join_rejected() {
    let (mut sc, members) = three_member_circle(100, 100);
    assert_eq!(sc.join_circle(members[0], 6).unwrap_err(), Error::AlreadyJoined);
}

#[test]
fn test_duplicate_deposit_rejected() {
    let (mut sc, members) = three_member_circle(100, 100);
    sc.deposit(members[0]).unwrap();
    assert_eq!(sc.deposit(members[0]).unwrap_err(), Error::DepositAlreadyMade);
}

#[test]
fn test_join_after_deadline_closes_enrollment() {
    let (mut sc, _members) = three_member_circle(100, 100);
    // The deadline is 10 and the anchor 0: time 11 lies past the window.
    assert_eq!(sc.join_circle(201, 11).unwrap_err(), Error::JoinDeadlinePassed);
    let state = sc.get_circle().unwrap();
    assert!(!state.is_open_for_joining);
    // Enrollment is now closed, so even an early clock is turned away.
    assert_eq!(sc.join_circle(202, 5).unwrap_err(), Error::JoinDeadlinePassed);
}

#[test]
fn test_join_rejected_at_capacity() {
    let mut sc = SavingsCircle::new();
    sc.create_circle(ADMIN, TOKEN, 100, vec![], 100, 1000).unwrap();
    for id in 0..32u64 {
        sc.join_circle(1000 + id, 5).unwrap();
    }
    let state = sc.get_circle().unwrap();
    assert_eq!(state.members.len(), 32);
    assert_eq!(sc.join_circle(2000, 5).unwrap_err(), Error::JoinDeadlinePassed);
}

#[test]
fn test_enrollment_window_re_anchors_on_execution() {
    let (mut sc, _members) = three_member_circle(100, 100);
    sc.execute_cycle(50).unwrap();
    // The window's anchor is the stored last-execution time, now 50: with a
    // deadline of 10, time 55 still lies inside the window while enrollment
    // remains open.
    sc.join_circle(201, 55).unwrap();
    assert_eq!(sc.get_circle().unwrap().members.len(), 4);
    assert_eq!(sc.join_circle(202, 61).unwrap_err(), Error::JoinDeadlinePassed);
}

#[test]
fn test_pause_gates_mutating_operations() {
    let (mut sc, members) = three_member_circle(100, 100);
    assert_eq!(sc.pause(members[0]).unwrap_err(), Error::NotOwner);
    sc.pause(ADMIN).unwrap();
    assert_eq!(sc.deposit(members[0]).unwrap_err(), Error::Paused);
    assert_eq!(sc.join_circle(201, 5).unwrap_err(), Error::Paused);
    assert_eq!(sc.execute_cycle(50).unwrap_err(), Error::Paused);
    assert_eq!(sc.unpause(members[0]).unwrap_err(), Error::NotOwner);
    sc.unpause(ADMIN).unwrap();
    sc.deposit(members[0]).unwrap();
}

#[test]
fn test_cycle_not_ready_preserves_state() {
    let (mut sc, members) = three_member_circle(10000, 100);
    for m in members {
        sc.deposit(m).unwrap();
    }
    sc.execute_cycle(50).unwrap();
    sc.deposit(members[0]).unwrap();
    let before = sc.get_circle().unwrap();
    let pen_before: i128 = sc.get_member_state(members[1]).unwrap().penalties_accrued;

    // Too early: 149 < 50 + 100.
    assert_eq!(sc.execute_cycle(149).unwrap_err(), Error::CycleNotReady);

    let after = sc.get_circle().unwrap();
    assert_eq!(after.current_cycle, before.current_cycle);
    assert_eq!(after.deposits_bitmap, before.deposits_bitmap);
    assert_eq!(after.next_payout_index, before.next_payout_index);
    assert_eq!(
        sc.get_member_state(members[1]).unwrap().penalties_accrued,
        pen_before
    );
}

#[test]
fn test_cycle_monotonicity_and_rotation() {
    let (mut sc, _members) = three_member_circle(100, 100);
    let mut now: u64 = 50;
    for step in 0..4u32 {
        let state = sc.get_circle().unwrap();
        assert_eq!(state.current_cycle, 1 + step);
        assert_eq!(state.next_payout_index, step % 3);
        sc.execute_cycle(now).unwrap();
        now += 100;
    }
    let state = sc.get_circle().unwrap();
    assert_eq!(state.current_cycle, 5);
    assert_eq!(state.next_payout_index, 1);
}

#[test]
fn test_penalty_conservation_sum() {
    let (mut sc, members) = three_member_circle(10000, 100);
    sc.deposit(members[0]).unwrap();
    sc.deposit(members[2]).unwrap();
    let sum_before: i128 = members
        .iter()
        .map(|m| sc.get_member_state(*m).unwrap().penalties_accrued)
        .sum();
    sc.execute_cycle(50).unwrap();
    let sum_after: i128 = members
        .iter()
        .map(|m| sc.get_member_state(*m).unwrap().penalties_accrued)
        .sum();
    // One miss pools 2000; each member is credited 666; the remainder 2 is
    // absorbed by the system, never re-credited.
    assert_eq!(sum_after - sum_before, -(2000 % 3));
    assert_eq!(sum_after - sum_before, -2000 + 3 * 666);
}

#[test]
fn test_claim_twice_is_idempotent() {
    let (mut sc, members) = three_member_circle(10000, 100);
    sc.deposit(members[0]).unwrap();
    sc.deposit(members[2]).unwrap();
    sc.execute_cycle(50).unwrap();

    let first = sc.claim_refund(members[0]).unwrap();
    assert_eq!(first, 666);
    assert_eq!(sc.get_member_state(members[0]).unwrap().penalties_accrued, 0);

    let second = sc.claim_refund(members[0]).unwrap();
    assert_eq!(second, 0);
    assert_eq!(sc.get_member_state(members[0]).unwrap().penalties_accrued, 0);
}

#[test]
fn test_full_participation_conserves_custody() {
    let (mut sc, members) = three_member_circle(250, 100);
    let mut custodial: i128 = 0;
    for m in members {
        custodial += sc.deposit(m).unwrap();
    }
    assert_eq!(custodial, 750);
    let (recipient, paid) = sc.execute_cycle(50).unwrap();
    custodial -= paid;
    assert_eq!(recipient, members[0]);
    // Collected-in equals paid-out: the custodial balance is unchanged net
    // of the cycle, and nobody accrued a penalty.
    assert_eq!(custodial, 0);
    for m in members {
        assert_eq!(sc.get_member_state(m).unwrap().penalties_accrued, 0);
    }
}

#[test]
fn test_reputation_saturates_at_zero() {
    let mut sc = SavingsCircle::new();
    sc.create_circle(ADMIN, TOKEN, 1000, vec![], 100, 10).unwrap();
    sc.join_circle(500, 5).unwrap();
    let mut now: u64 = 50;
    // Twelve missed cycles from a score of 10: the decrement saturates at 0.
    for _ in 0..12 {
        sc.execute_cycle(now).unwrap();
        now += 100;
    }
    let m = sc.get_member_state(500).unwrap();
    assert_eq!(m.reputation_score, 0);
    // With a single member the whole pooled fine flows back as the share.
    assert_eq!(m.penalties_accrued, 0);
}

#[test]
fn test_small_deposit_pools_no_penalty() {
    // 20% of a 50-unit deposit truncates to 50 / 100 * 20 = 0.
    let (mut sc, members) = three_member_circle(50, 100);
    sc.deposit(members[0]).unwrap();
    sc.execute_cycle(50).unwrap();
    let missed = sc.get_member_state(members[1]).unwrap();
    assert_eq!(missed.reputation_score, 9);
    assert_eq!(missed.penalties_accrued, 0);
    let deposited = sc.get_member_state(members[0]).unwrap();
    assert_eq!(deposited.penalties_accrued, 0);
}

#[test]
fn test_deposit_updates_reputation_and_cycle() {
    let (mut sc, members) = three_member_circle(100, 100);
    let amount = sc.deposit(members[1]).unwrap();
    assert_eq!(amount, 100);
    let m = sc.get_member_state(members[1]).unwrap();
    assert_eq!(m.reputation_score, 11);
    assert_eq!(m.last_deposit_cycle, 1);
}

#[test]
fn test_get_member_state_unseen_identity_defaults() {
    let sc = SavingsCircle::new();
    let m = sc.get_member_state(424242).unwrap();
    assert_eq!(m.reputation_score, 10);
    assert_eq!(m.penalties_accrued, 0);
    assert_eq!(m.last_deposit_cycle, 0);
}
