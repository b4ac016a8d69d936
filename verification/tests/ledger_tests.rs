use parachain_staking::ledger::{CollatorInfo, Delegation, Ledger, LockInstruction};
use parachain_staking::precompile::PCall;
use parachain_staking::types::{Config, StakingError, TotalStake};
use parachain_staking::unstaking::UnstakeEntry;

const ALICE: u64 = 1;
const BOB: u64 = 2;
const CHARLIE: u64 = 3;
const DAVID: u64 = 4;
const PARENT: u64 = 5;

fn config(delay: u64) -> Config {
    Config {
        min_collator_stake: 10,
        min_delegator_stake: 5,
        max_delegations: 5,
        max_unstake_requests: 6,
        unstaking_delay: delay,
    }
}

fn build(delay: u64, collators: Vec<(u64, u128)>, delegators: Vec<(u64, u64, u128)>) -> Ledger {
    let mut ledger = Ledger::new(config(delay));
    for (owner, amount) in collators {
        assert!(ledger.join_candidate(owner, amount).is_ok());
    }
    for (delegator, candidate, amount) in delegators {
        assert!(ledger.join_delegators(delegator, candidate, amount).is_ok());
    }
    ledger
}

fn entry(maturity_block: u64, amount: u128) -> UnstakeEntry {
    UnstakeEntry { maturity_block, amount }
}

#[test]
fn modifiers() {
    let ledger = build(2, vec![(ALICE, 10)], vec![]);
    assert!(PCall::GetCollatorList.is_view());
    let before = ledger.total_collator_stake();
    let list = ledger.get_collator_list();
    assert_eq!(list, vec![CollatorInfo { owner: ALICE, amount: 10 }]);
    assert_eq!(ledger.total_collator_stake(), before);
}

#[test]
fn collator_list_test() {
    let ledger = build(2, vec![(ALICE, 10), (CHARLIE, 20)], vec![(BOB, ALICE, 100)]);
    assert_eq!(
        ledger.get_collator_list(),
        vec![
            CollatorInfo { owner: ALICE, amount: 110 },
            CollatorInfo { owner: CHARLIE, amount: 20 },
        ]
    );
}

#[test]
fn collator_list_breaks_ties_by_identifier() {
    let ledger = build(2, vec![(CHARLIE, 20), (ALICE, 20), (BOB, 30)], vec![]);
    assert_eq!(
        ledger.get_collator_list(),
        vec![
            CollatorInfo { owner: BOB, amount: 30 },
            CollatorInfo { owner: ALICE, amount: 20 },
            CollatorInfo { owner: CHARLIE, amount: 20 },
        ]
    );
}

#[test]
fn unlock_unstaked() {
    let mut ledger = build(2, vec![(ALICE, 10)], vec![(BOB, ALICE, 100)]);
    assert_eq!(
        ledger.revoke_delegation(BOB, ALICE, 1),
        Ok(LockInstruction::SetLock { account: BOB, amount: 100 })
    );
    assert_eq!(ledger.unstaking(BOB), vec![entry(3, 100)]);
    assert_eq!(ledger.lock_amount(BOB), 100);
    // nothing is mature yet
    assert_eq!(
        ledger.unlock_unstaked(BOB, 1),
        LockInstruction::SetLock { account: BOB, amount: 100 }
    );
    assert_eq!(ledger.unstaking(BOB), vec![entry(3, 100)]);
    assert_eq!(ledger.lock_amount(BOB), 100);

    // delegating again raises the lock by the new stake; the pending entry stays
    assert_eq!(
        ledger.join_delegators(BOB, ALICE, 100),
        Ok(LockInstruction::SetLock { account: BOB, amount: 200 })
    );
    assert_eq!(
        ledger.revoke_delegation(BOB, ALICE, 2),
        Ok(LockInstruction::SetLock { account: BOB, amount: 200 })
    );
    assert_eq!(ledger.unstaking(BOB), vec![entry(3, 100), entry(4, 100)]);
    assert_eq!(
        ledger.unlock_unstaked(BOB, 2),
        LockInstruction::SetLock { account: BOB, amount: 200 }
    );
    assert_eq!(ledger.unstaking(BOB), vec![entry(3, 100), entry(4, 100)]);

    // the first entry matures at block 3
    assert_eq!(
        ledger.unlock_unstaked(BOB, 3),
        LockInstruction::SetLock { account: BOB, amount: 100 }
    );
    assert_eq!(ledger.unstaking(BOB), vec![entry(4, 100)]);
    assert_eq!(ledger.lock_amount(BOB), 100);

    // the second at block 4, after which nothing is locked
    assert_eq!(ledger.unlock_unstaked(BOB, 4), LockInstruction::RemoveLock { account: BOB });
    assert_eq!(ledger.unstaking(BOB), vec![]);
    assert_eq!(ledger.lock_amount(BOB), 0);
}

#[test]
fn should_update_total_stake() {
    let mut ledger = build(
        2,
        vec![(ALICE, 30), (PARENT, 30)],
        vec![(BOB, ALICE, 20), (CHARLIE, ALICE, 20)],
    );
    let mut old_stake = ledger.total_collator_stake();
    assert_eq!(old_stake, TotalStake { collators: 60, delegators: 40 });

    assert!(ledger.delegator_stake_more(BOB, ALICE, 50).is_ok());
    assert_eq!(
        ledger.total_collator_stake(),
        TotalStake { delegators: old_stake.delegators + 50, ..old_stake }
    );

    old_stake = ledger.total_collator_stake();
    assert!(ledger.delegator_stake_less(BOB, ALICE, 50, 1).is_ok());
    assert_eq!(
        ledger.total_collator_stake(),
        TotalStake { delegators: old_stake.delegators - 50, ..old_stake }
    );

    old_stake = ledger.total_collator_stake();
    assert!(ledger.join_delegators(DAVID, ALICE, 50).is_ok());
    assert_eq!(
        ledger.total_collator_stake(),
        TotalStake { delegators: old_stake.delegators + 50, ..old_stake }
    );

    old_stake = ledger.total_collator_stake();
    assert!(ledger.delegate_another_candidate(DAVID, PARENT, 60).is_ok());
    assert_eq!(
        ledger.total_collator_stake(),
        TotalStake { delegators: old_stake.delegators + 60, ..old_stake }
    );

    old_stake = ledger.total_collator_stake();
    assert_eq!(ledger.delegator_state(CHARLIE).unwrap().total, 20);
    assert!(ledger.leave_delegators(CHARLIE, 1).is_ok());
    assert_eq!(
        ledger.total_collator_stake(),
        TotalStake { delegators: old_stake.delegators - 20, ..old_stake }
    );
    let old_stake = ledger.total_collator_stake();
    assert_eq!(ledger.delegator_state(BOB).unwrap().total, 20);
    assert!(ledger.revoke_delegation(BOB, ALICE, 1).is_ok());
    assert_eq!(
        ledger.total_collator_stake(),
        TotalStake { delegators: old_stake.delegators - 20, ..old_stake }
    );
    assert!(ledger.delegator_state(BOB).is_none());
    assert!(ledger.delegator_state(CHARLIE).is_none());
}

#[test]
fn revoked_stake_unlocks_after_the_delay() {
    let mut ledger = build(3, vec![(ALICE, 10)], vec![(BOB, ALICE, 100)]);
    assert!(ledger.revoke_delegation(BOB, ALICE, 0).is_ok());
    assert_eq!(ledger.unstaking(BOB), vec![entry(3, 100)]);
    for block in 1..3u64 {
        assert_eq!(
            ledger.unlock_unstaked(BOB, block),
            LockInstruction::SetLock { account: BOB, amount: 100 }
        );
        assert_eq!(ledger.unstaking(BOB), vec![entry(3, 100)]);
    }
    assert_eq!(ledger.unlock_unstaked(BOB, 3), LockInstruction::RemoveLock { account: BOB });
    assert!(ledger.unstaking(BOB).is_empty());
    assert_eq!(ledger.pending, 0);
}

#[test]
fn decreases_in_one_block_share_an_entry() {
    let mut ledger = build(3, vec![(ALICE, 10)], vec![(BOB, ALICE, 100)]);
    assert!(ledger.delegator_stake_less(BOB, ALICE, 10, 7).is_ok());
    assert!(ledger.delegator_stake_less(BOB, ALICE, 20, 7).is_ok());
    assert_eq!(ledger.unstaking(BOB), vec![entry(10, 30)]);
    assert_eq!(ledger.lock_amount(BOB), 100);
    assert_eq!(ledger.delegator_state(BOB).unwrap().total, 70);
    assert_eq!(ledger.pending, 30);
}

#[test]
fn sixth_delegation_is_refused() {
    let collators: Vec<(u64, u128)> = (10..16u64).map(|c| (c, 10u128)).collect();
    let mut ledger = build(2, collators, vec![]);
    for c in 10..15u64 {
        assert!(ledger.join_delegators(BOB, c, 5).is_ok());
    }
    let total = ledger.total_collator_stake();
    assert_eq!(ledger.join_delegators(BOB, 15, 5), Err(StakingError::CapacityExceeded));
    assert_eq!(ledger.delegate_another_candidate(BOB, 15, 5), Err(StakingError::CapacityExceeded));
    assert_eq!(ledger.count_delegations(BOB), 5);
    assert_eq!(ledger.delegator_state(BOB).unwrap().delegations.len(), 5);
    assert_eq!(ledger.total_collator_stake(), total);
    assert_eq!(ledger.lock_amount(BOB), 25);
}

#[test]
fn each_rejection_names_its_reason() {
    let mut ledger = build(2, vec![(ALICE, 10)], vec![(BOB, ALICE, 20)]);
    assert_eq!(ledger.join_candidate(CHARLIE, 0), Err(StakingError::InvalidAmount));
    assert_eq!(ledger.join_candidate(ALICE, 10), Err(StakingError::DuplicateDelegation));
    assert_eq!(ledger.join_candidate(CHARLIE, 9), Err(StakingError::BelowMinimum));
    assert_eq!(ledger.join_candidate(CHARLIE, u128::MAX), Err(StakingError::InvalidAmount));
    assert_eq!(ledger.candidate_stake_more(CHARLIE, 1), Err(StakingError::NotFound));
    assert_eq!(ledger.candidate_stake_less(ALICE, 5, 0), Err(StakingError::BelowMinimum));
    assert_eq!(ledger.candidate_stake_less(ALICE, 11, 0), Err(StakingError::BelowMinimum));
    assert_eq!(ledger.join_delegators(CHARLIE, ALICE, 0), Err(StakingError::InvalidAmount));
    assert_eq!(ledger.join_delegators(CHARLIE, DAVID, 10), Err(StakingError::NotFound));
    assert_eq!(ledger.join_delegators(CHARLIE, ALICE, 4), Err(StakingError::BelowMinimum));
    assert_eq!(ledger.join_delegators(BOB, ALICE, 10), Err(StakingError::DuplicateDelegation));
    assert_eq!(ledger.delegate_another_candidate(CHARLIE, ALICE, 10), Err(StakingError::NotFound));
    assert_eq!(ledger.delegator_stake_more(CHARLIE, ALICE, 10), Err(StakingError::NotFound));
    assert_eq!(ledger.delegator_stake_more(BOB, ALICE, 0), Err(StakingError::InvalidAmount));
    assert_eq!(ledger.delegator_stake_less(BOB, ALICE, 0, 0), Err(StakingError::InvalidAmount));
    assert_eq!(ledger.delegator_stake_less(BOB, ALICE, 16, 0), Err(StakingError::BelowMinimum));
    assert_eq!(ledger.delegator_stake_less(BOB, ALICE, 20, 0), Err(StakingError::BelowMinimum));
    assert_eq!(ledger.delegator_stake_less(BOB, CHARLIE, 1, 0), Err(StakingError::NotFound));
    assert_eq!(ledger.revoke_delegation(CHARLIE, ALICE, 0), Err(StakingError::NotFound));
    assert_eq!(ledger.leave_delegators(CHARLIE, 0), Err(StakingError::NotFound));
    assert_eq!(ledger.total_collator_stake(), TotalStake { collators: 10, delegators: 20 });
    assert_eq!(
        ledger.delegator_state(BOB).unwrap().delegations,
        vec![Delegation { delegator: BOB, candidate: ALICE, amount: 20 }]
    );
}

#[test]
fn a_full_queue_refuses_the_whole_decrease() {
    let mut ledger = Ledger::new(Config { max_unstake_requests: 2, ..config(2) });
    assert!(ledger.join_candidate(ALICE, 10).is_ok());
    assert!(ledger.join_delegators(BOB, ALICE, 100).is_ok());
    assert!(ledger.delegator_stake_less(BOB, ALICE, 10, 1).is_ok());
    assert!(ledger.delegator_stake_less(BOB, ALICE, 10, 2).is_ok());
    assert_eq!(ledger.delegator_stake_less(BOB, ALICE, 10, 3), Err(StakingError::CapacityExceeded));
    assert_eq!(ledger.revoke_delegation(BOB, ALICE, 3), Err(StakingError::CapacityExceeded));
    assert_eq!(ledger.leave_delegators(BOB, 3), Err(StakingError::CapacityExceeded));
    assert_eq!(ledger.delegator_state(BOB).unwrap().total, 80);
    assert_eq!(ledger.total_collator_stake(), TotalStake { collators: 10, delegators: 80 });
    assert_eq!(ledger.unstaking(BOB), vec![entry(3, 10), entry(4, 10)]);
    // a request for a block that is already queued still fits
    assert!(ledger.delegator_stake_less(BOB, ALICE, 10, 2).is_ok());
    assert_eq!(ledger.unstaking(BOB), vec![entry(3, 10), entry(4, 20)]);
    assert_eq!(ledger.lock_amount(BOB), 100);
}

#[test]
fn candidate_stake_moves_through_the_queue() {
    let mut ledger = build(2, vec![(ALICE, 30)], vec![(BOB, ALICE, 20)]);
    assert_eq!(
        ledger.candidate_stake_more(ALICE, 20),
        Ok(LockInstruction::SetLock { account: ALICE, amount: 50 })
    );
    assert_eq!(
        ledger.candidate_stake_less(ALICE, 40, 5),
        Ok(LockInstruction::SetLock { account: ALICE, amount: 50 })
    );
    assert_eq!(ledger.total_collator_stake(), TotalStake { collators: 10, delegators: 20 });
    assert_eq!(ledger.unstaking(ALICE), vec![entry(7, 40)]);
    let alice = ledger.candidate(ALICE).unwrap();
    assert_eq!((alice.self_stake, alice.delegated_stake), (10, 20));
    // with a delegator left the candidate stays, without bond
    assert!(ledger.candidate_stake_less(ALICE, 10, 5).is_ok());
    assert_eq!(ledger.candidate(ALICE).unwrap().self_stake, 0);
    // once the last delegator is gone it is dropped
    assert!(ledger.revoke_delegation(BOB, ALICE, 5).is_ok());
    assert!(ledger.candidate(ALICE).is_none());
    assert!(ledger.get_collator_list().is_empty());
    assert_eq!(ledger.total_collator_stake(), TotalStake { collators: 0, delegators: 0 });
    assert_eq!(
        ledger.unlock_unstaked(ALICE, 7),
        LockInstruction::RemoveLock { account: ALICE }
    );
    assert_eq!(ledger.unlock_unstaked(BOB, 7), LockInstruction::RemoveLock { account: BOB });
    assert_eq!(ledger.pending, 0);
}

#[test]
fn leaving_drops_candidates_left_idle() {
    let mut ledger = build(2, vec![(ALICE, 10), (CHARLIE, 10)], vec![(BOB, ALICE, 20), (BOB, CHARLIE, 7)]);
    assert!(ledger.candidate_stake_less(ALICE, 10, 0).is_ok());
    assert_eq!(
        ledger.leave_delegators(BOB, 1),
        Ok(LockInstruction::SetLock { account: BOB, amount: 27 })
    );
    assert!(ledger.candidate(ALICE).is_none());
    assert_eq!(ledger.candidate(CHARLIE).unwrap().delegated_stake, 0);
    assert_eq!(ledger.unstaking(BOB), vec![entry(3, 27)]);
    assert_eq!(ledger.total_collator_stake(), TotalStake { collators: 10, delegators: 0 });
}

#[test]
fn aggregate_matches_an_independent_sum() {
    let mut ledger = build(
        2,
        vec![(ALICE, 30), (PARENT, 45)],
        vec![(BOB, ALICE, 20), (CHARLIE, PARENT, 15), (BOB, PARENT, 5)],
    );
    assert!(ledger.delegator_stake_less(BOB, ALICE, 3, 4).is_ok());
    assert!(ledger.candidate_stake_more(PARENT, 5).is_ok());
    let bonds: u128 = ledger.candidates.iter().map(|c| c.amount).sum();
    let delegated: u128 = ledger.delegations.iter().map(|d| d.amount).sum();
    let per_candidate: u128 = ledger.get_collator_list().iter().map(|c| c.amount).sum();
    assert_eq!(ledger.total_collator_stake(), TotalStake { collators: bonds, delegators: delegated });
    assert_eq!((bonds, delegated), (80, 37));
    assert_eq!(per_candidate, 117);
    for account in [ALICE, BOB, CHARLIE, PARENT] {
        let queued: u128 = ledger.unstaking(account).iter().map(|e| e.amount).sum();
        let own = ledger.candidate(account).map_or(0, |c| c.self_stake);
        let held = ledger.delegator_state(account).map_or(0, |d| d.total);
        assert_eq!(ledger.lock_amount(account), queued + own + held);
    }
    assert_eq!(ledger.lock_amount(BOB), 25);
}

#[test]
fn unlocking_twice_changes_nothing_more() {
    let mut ledger = build(2, vec![(ALICE, 10)], vec![(BOB, ALICE, 100)]);
    assert!(ledger.delegator_stake_less(BOB, ALICE, 30, 1).is_ok());
    assert!(ledger.delegator_stake_less(BOB, ALICE, 20, 4).is_ok());
    let first = ledger.unlock_unstaked(BOB, 3);
    let queue = ledger.unstaking(BOB);
    let pending = ledger.pending;
    let second = ledger.unlock_unstaked(BOB, 3);
    assert_eq!(first, LockInstruction::SetLock { account: BOB, amount: 70 });
    assert_eq!(second, first);
    assert_eq!(ledger.unstaking(BOB), queue);
    assert_eq!(queue, vec![entry(6, 20)]);
    assert_eq!(ledger.pending, pending);
    // an account that never unstaked may ask as well
    assert_eq!(ledger.unlock_unstaked(DAVID, 3), LockInstruction::RemoveLock { account: DAVID });
    assert_eq!(
        ledger.unlock_unstaked(ALICE, 3),
        LockInstruction::SetLock { account: ALICE, amount: 10 }
    );
}
