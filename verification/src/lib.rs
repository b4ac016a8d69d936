//! A delegated-staking ledger: collator candidates, the delegations made to
//! them, a bounded queue of pending withdrawals per account, and the
//! network-wide stake aggregate, all kept consistent by verified operations.

pub mod evm;
pub mod inflation;
pub mod laws;
pub mod leaving;
pub mod ledger;
pub mod listing;
pub mod operations;
pub mod precompile;
pub mod sums;
pub mod types;
pub mod unstaking;
pub mod withdrawals;
