use vstd::prelude::*;

verus! {

/// Why an operation on the ledger was rejected.
#[derive(Clone, Copy, Debug, PartialEq, Eq, Structural)]
pub enum StakingError {
    /// A candidate, delegation or account record that the operation needs is absent.
    NotFound,
    /// The resulting stake would lie under the configured minimum.
    BelowMinimum,
    /// The number of delegations or of pending withdrawals is at its bound.
    CapacityExceeded,
    /// The amount is zero, or so large that a tracked sum would leave `u128`.
    InvalidAmount,
    /// The delegator already delegates to that candidate.
    DuplicateDelegation,
}

/// The limits under which a ledger runs.
#[derive(Clone, Copy, Debug, PartialEq, Eq, Structural)]
pub struct Config {
    /// Least amount a candidate may bond when joining, and keep when reducing.
    pub min_collator_stake: u128,
    /// Least amount of a single delegation.
    pub min_delegator_stake: u128,
    /// Most candidates one delegator may back at a time.
    pub max_delegations: usize,
    /// Most distinct maturity blocks in one account's unstaking queue.
    pub max_unstake_requests: usize,
    /// Blocks between a stake decrease and the moment it can be released.
    pub unstaking_delay: u64,
}

/// The network-wide aggregate that collator selection reads.
#[derive(Clone, Copy, Debug, PartialEq, Eq, Structural)]
pub struct TotalStake {
    /// Sum of every candidate's own bond.
    pub collators: u128,
    /// Sum of every delegation.
    pub delegators: u128,
}

} // verus!
