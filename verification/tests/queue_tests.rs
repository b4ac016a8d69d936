use parachain_staking::types::{Config, StakingError};
use parachain_staking::unstaking::{UnstakeEntry, UnstakingQueue};

fn limits(capacity: usize, delay: u64) -> Config {
    Config {
        min_collator_stake: 1,
        min_delegator_stake: 1,
        max_delegations: 5,
        max_unstake_requests: capacity,
        unstaking_delay: delay,
    }
}

#[test]
fn enqueue_orders_and_merges() {
    let config = limits(3, 3);
    let mut queue = UnstakingQueue::new();
    assert_eq!(queue.enqueue(5, 10, &config), Ok(()));
    assert_eq!(queue.enqueue(7, 2, &config), Ok(()));
    assert_eq!(queue.enqueue(1, 10, &config), Ok(()));
    assert_eq!(
        queue.entries,
        vec![
            UnstakeEntry { maturity_block: 5, amount: 7 },
            UnstakeEntry { maturity_block: 13, amount: 6 },
        ]
    );
    assert_eq!(queue.total(), 13);
    assert_eq!(queue.pending_at(13), 6);
    assert_eq!(queue.pending_at(6), 0);
    assert_eq!(queue.len(), 2);
}

#[test]
fn enqueue_rejects_without_change() {
    let config = limits(1, 3);
    let mut queue = UnstakingQueue::new();
    assert_eq!(queue.enqueue(0, 0, &config), Err(StakingError::InvalidAmount));
    assert_eq!(queue.enqueue(5, 0, &config), Ok(()));
    assert_eq!(queue.check_enqueue(5, 1, &config), Some(StakingError::CapacityExceeded));
    assert_eq!(queue.enqueue(5, 1, &config), Err(StakingError::CapacityExceeded));
    assert_eq!(queue.enqueue(u128::MAX, 0, &config), Err(StakingError::InvalidAmount));
    assert_eq!(queue.check_enqueue(5, 0, &config), None);
    assert_eq!(queue.entries, vec![UnstakeEntry { maturity_block: 3, amount: 5 }]);
}

#[test]
fn release_takes_what_is_mature_and_only_once() {
    let config = limits(4, 0);
    let mut queue = UnstakingQueue::new();
    for (block, amount) in [(4u64, 40u128), (2, 20), (9, 90), (3, 30)] {
        assert_eq!(queue.enqueue(amount, block, &config), Ok(()));
    }
    assert_eq!(queue.release(1), 0);
    assert_eq!(queue.len(), 4);
    assert_eq!(queue.release(3), 50);
    assert_eq!(queue.release(3), 0);
    assert_eq!(
        queue.entries,
        vec![
            UnstakeEntry { maturity_block: 4, amount: 40 },
            UnstakeEntry { maturity_block: 9, amount: 90 },
        ]
    );
    assert_eq!(queue.release(100), 130);
    assert!(queue.entries.is_empty());
    assert_eq!(queue.release(100), 0);
}
