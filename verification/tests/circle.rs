use savings_circle::circle::SavingsCircle;

// Identities under which the host knows the parties.
const ADMIN: u64 = 1;
const TOKEN: u64 = 7;
const MEMBERS: [u64; 3] = [101, 102, 103];

#[test]
fn test_create_and_join_circle() {
    let mut sc = SavingsCircle::new();
    let deposit: i128 = 100_000_000;
    let cycle_interval: u64 = 60 * 60 * 24;

    sc.create_circle(ADMIN, TOKEN, deposit, MEMBERS.to_vec(), cycle_interval, 60 * 60)
        .unwrap();

    let state = sc.get_circle().unwrap();
    assert_eq!(state.config.owner, ADMIN);
    assert_eq!(state.config.deposit_amount, deposit);
    assert_eq!(state.current_cycle, 1);
    assert!(state.is_open_for_joining);

    let now: u64 = 100;
    for member in MEMBERS {
        sc.join_circle(member, now).unwrap();
        let m_state = sc.get_member_state(member).unwrap();
        assert_eq!(m_state.reputation_score, 10);
    }

    let state = sc.get_circle().unwrap();
    assert_eq!(state.members.len(), MEMBERS.len());
}

#[test]
fn test_deposit_and_payout_happy_path() {
    let mut sc = SavingsCircle::new();
    let deposit: i128 = 100;
    let cycle_interval: u64 = 100;

    sc.create_circle(ADMIN, TOKEN, deposit, MEMBERS.to_vec(), cycle_interval, 10)
        .unwrap();
    for member in MEMBERS {
        sc.join_circle(member, 5).unwrap();
    }

    // The host's token ledger: each member starts with five deposits' worth,
    // the custodial account with nothing.
    let mut balances: [i128; 3] = [deposit * 5, deposit * 5, deposit * 5];
    let mut contract_balance: i128 = 0;
    let num_members: i128 = MEMBERS.len() as i128;
    let total_pot: i128 = deposit * num_members;

    assert_eq!(contract_balance, 0);
    let initial_balance_c1: i128 = balances[0];

    for (k, member) in MEMBERS.iter().enumerate() {
        let moved = sc.deposit(*member).unwrap();
        balances[k] -= moved;
        contract_balance += moved;
    }
    assert_eq!(contract_balance, total_pot);

    let now: u64 = 5 + cycle_interval;
    let recipient_c1 = MEMBERS[0];
    let (recipient, paid) = sc.execute_cycle(now).unwrap();
    assert_eq!(recipient, recipient_c1);
    contract_balance -= paid;
    balances[0] += paid;

    assert_eq!(contract_balance, 0);
    assert_eq!(balances[0], initial_balance_c1 - deposit + total_pot);

    let state = sc.get_circle().unwrap();
    assert_eq!(state.current_cycle, 2);
    assert_eq!(state.next_payout_index, 1);
}

#[test]
fn test_execute_cycle_with_missing_deposit_and_claim() {
    let mut sc = SavingsCircle::new();
    let deposit: i128 = 10000;
    let cycle_interval: u64 = 100;
    let num_members: i128 = MEMBERS.len() as i128;

    sc.create_circle(ADMIN, TOKEN, deposit, MEMBERS.to_vec(), cycle_interval, 10)
        .unwrap();
    for member in MEMBERS {
        sc.join_circle(member, 5).unwrap();
    }

    let depositor_1 = MEMBERS[0];
    let missing_member = MEMBERS[1];
    let depositor_2 = MEMBERS[2];

    let mut balances: [i128; 3] = [deposit * 5, deposit * 5, deposit * 5];
    let mut contract_balance: i128 = 0;

    let moved = sc.deposit(depositor_1).unwrap();
    balances[0] -= moved;
    contract_balance += moved;
    let moved = sc.deposit(depositor_2).unwrap();
    balances[2] -= moved;
    contract_balance += moved;

    let collected_deposits: i128 = deposit * 2;
    assert_eq!(contract_balance, collected_deposits);

    let now: u64 = 5 + cycle_interval;
    let (recipient, paid) = sc.execute_cycle(now).unwrap();
    assert_eq!(recipient, MEMBERS[0]);
    // The pot is the configured deposit times the group size, regardless of
    // only two deposits actually collected: the custodial balance must hold
    // pre-existing surplus, or the host's payout transfer fails.
    assert_eq!(paid, deposit * num_members);
    contract_balance -= paid;
    balances[0] += paid;

    // The penalty is 20% of one deposit; the share is its third, truncated.
    let penalty_value: i128 = deposit / 100 * 20;
    let penalty_share: i128 = penalty_value / num_members;

    // The defaulter is fined the full penalty but, like every member, is
    // also credited the redistributed share.
    let m_state = sc.get_member_state(missing_member).unwrap();
    assert_eq!(m_state.penalties_accrued, -penalty_value + penalty_share);
    assert_eq!(m_state.reputation_score, 9);

    let d_state = sc.get_member_state(depositor_1).unwrap();
    assert_eq!(d_state.penalties_accrued, penalty_share);
    assert_eq!(d_state.reputation_score, 11);

    let d2_state = sc.get_member_state(depositor_2).unwrap();
    assert_eq!(d2_state.penalties_accrued, penalty_share);
    assert_eq!(d2_state.reputation_score, 11);

    // The fined member has nothing to claim: the call is a silent no-op.
    let paid_out = sc.claim_refund(missing_member).unwrap();
    assert_eq!(paid_out, 0);
    let m_state_after_claim = sc.get_member_state(missing_member).unwrap();
    assert_eq!(m_state_after_claim.penalties_accrued, -penalty_value + penalty_share);

    let balance_d1_before_claim: i128 = balances[0];
    let paid_out = sc.claim_refund(depositor_1).unwrap();
    contract_balance -= paid_out;
    balances[0] += paid_out;
    let balance_d1_after_claim: i128 = balances[0];

    assert_eq!(balance_d1_after_claim, balance_d1_before_claim + penalty_share);
    let d_state_after_claim = sc.get_member_state(depositor_1).unwrap();
    assert_eq!(d_state_after_claim.penalties_accrued, 0);
}
