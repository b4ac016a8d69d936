use vstd::prelude::*;
use crate::ledger::{Ledger, CollatorInfo, LockInstruction};
use crate::types::StakingError;

verus! {

/// A call that the adapter accepts, with its decoded arguments.
#[derive(Clone, Copy, Debug, PartialEq, Eq, Structural)]
pub enum PCall {
    GetCollatorList,
    JoinDelegators { collator: u64, stake: u128 },
    DelegateAnotherCandidate { collator: u64, stake: u128 },
    LeaveDelegators,
    RevokeDelegation { collator: u64 },
    DelegatorStakeMore { collator: u64, stake: u128 },
    DelegatorStakeLess { collator: u64, stake: u128 },
    UnlockUnstaked { target: u64 },
}

/// The selector of each call.
pub const GET_COLLATOR_LIST: u32 = 0xaaacb283u32;

pub const JOIN_DELEGATORS: u32 = 0xd9f511cdu32;

pub const DELEGATE_ANOTHER_CANDIDATE: u32 = 0x1916fdcau32;

pub const LEAVE_DELEGATORS: u32 = 0x4b99dc38u32;

pub const REVOKE_DELEGATION: u32 = 0xb96f2b07u32;

pub const DELEGATOR_STAKE_MORE: u32 = 0x1b3d3cdfu32;

pub const DELEGATOR_STAKE_LESS: u32 = 0xb7e8947fu32;

pub const UNLOCK_UNSTAKED: u32 = 0x0f615369u32;

/// The selectors of all calls, in the order of the interface.
pub open spec fn all_selectors() -> Seq<u32> {
    seq![
        GET_COLLATOR_LIST,
        JOIN_DELEGATORS,
        DELEGATE_ANOTHER_CANDIDATE,
        LEAVE_DELEGATORS,
        REVOKE_DELEGATION,
        DELEGATOR_STAKE_MORE,
        DELEGATOR_STAKE_LESS,
        UNLOCK_UNSTAKED,
    ]
}

/// The selector under which a call arrives.
pub open spec fn selector_of(call: PCall) -> u32 {
    match call {
        PCall::GetCollatorList => GET_COLLATOR_LIST,
        PCall::JoinDelegators { .. } => JOIN_DELEGATORS,
        PCall::DelegateAnotherCandidate { .. } => DELEGATE_ANOTHER_CANDIDATE,
        PCall::LeaveDelegators => LEAVE_DELEGATORS,
        PCall::RevokeDelegation { .. } => REVOKE_DELEGATION,
        PCall::DelegatorStakeMore { .. } => DELEGATOR_STAKE_MORE,
        PCall::DelegatorStakeLess { .. } => DELEGATOR_STAKE_LESS,
        PCall::UnlockUnstaked { .. } => UNLOCK_UNSTAKED,
    }
}

/// A list that holds `selector` and nothing else.
fn single(selector: u32) -> (list: Vec<u32>)
    ensures
        list@ == seq![selector],
{
    let mut list: Vec<u32> = Vec::new();
    list.push(selector);
    proof {
        assert(list@ =~= seq![selector]);
    }
    list
}

impl PCall {
    /// The selector under which this call arrives.
    pub fn selector(&self) -> (s: u32)
        ensures
            s == selector_of(*self),
    {
        match self {
            PCall::GetCollatorList => GET_COLLATOR_LIST,
            PCall::JoinDelegators { .. } => JOIN_DELEGATORS,
            PCall::DelegateAnotherCandidate { .. } => DELEGATE_ANOTHER_CANDIDATE,
            PCall::LeaveDelegators => LEAVE_DELEGATORS,
            PCall::RevokeDelegation { .. } => REVOKE_DELEGATION,
            PCall::DelegatorStakeMore { .. } => DELEGATOR_STAKE_MORE,
            PCall::DelegatorStakeLess { .. } => DELEGATOR_STAKE_LESS,
            PCall::UnlockUnstaked { .. } => UNLOCK_UNSTAKED,
        }
    }

    /// Whether this call changes no state.
    pub fn is_view(&self) -> (v: bool)
        ensures
            v == (*self == PCall::GetCollatorList),
    {
        match self {
            PCall::GetCollatorList => true,
            _ => false,
        }
    }

    /// The selectors that stand for reading the collator list.
    pub fn get_collator_list_selectors() -> (list: Vec<u32>)
        ensures
            list@ == seq![GET_COLLATOR_LIST],
    {
        single(GET_COLLATOR_LIST)
    }

    /// The selectors that stand for a first delegation.
    pub fn join_delegators_selectors() -> (list: Vec<u32>)
        ensures
            list@ == seq![JOIN_DELEGATORS],
    {
        single(JOIN_DELEGATORS)
    }

    /// The selectors that stand for a further delegation.
    pub fn delegate_another_candidate_selectors() -> (list: Vec<u32>)
        ensures
            list@ == seq![DELEGATE_ANOTHER_CANDIDATE],
    {
        single(DELEGATE_ANOTHER_CANDIDATE)
    }

    /// The selectors that stand for giving up every delegation.
    pub fn leave_delegators_selectors() -> (list: Vec<u32>)
        ensures
            list@ == seq![LEAVE_DELEGATORS],
    {
        single(LEAVE_DELEGATORS)
    }

    /// The selectors that stand for revoking one delegation.
    pub fn revoke_delegation_selectors() -> (list: Vec<u32>)
        ensures
            list@ == seq![REVOKE_DELEGATION],
    {
        single(REVOKE_DELEGATION)
    }

    /// The selectors that stand for raising a delegation.
    pub fn delegator_stake_more_selectors() -> (list: Vec<u32>)
        ensures
            list@ == seq![DELEGATOR_STAKE_MORE],
    {
        single(DELEGATOR_STAKE_MORE)
    }

    /// The selectors that stand for lowering a delegation.
    pub fn delegator_stake_less_selectors() -> (list: Vec<u32>)
        ensures
            list@ == seq![DELEGATOR_STAKE_LESS],
    {
        single(DELEGATOR_STAKE_LESS)
    }

    /// The selectors that stand for releasing what is mature.
    pub fn unlock_unstaked_selectors() -> (list: Vec<u32>)
        ensures
            list@ == seq![UNLOCK_UNSTAKED],
    {
        single(UNLOCK_UNSTAKED)
    }
}

/// The set of calls that the adapter answers.
#[derive(Debug)]
pub struct Precompiles {
    pub selectors: Vec<u32>,
}

impl Precompiles {
    /// Whether a call with this selector is answered.
    pub fn supports(&self, selector: u32) -> (r: bool)
        ensures
            r == self.selectors@.contains(selector),
    {
        let mut i: usize = 0;
        while i < self.selectors.len()
            invariant
                0 <= i <= self.selectors@.len(),
                forall|k: int| 0 <= k < i ==> self.selectors@[k] != selector,
            decreases self.selectors@.len() - i,
        {
            if self.selectors[i] == selector {
                return true;
            }
            i = i + 1;
        }
        false
    }
}

/// The calls of the staking interface.
pub fn precompiles() -> (set: Precompiles)
    ensures
        set.selectors@ == all_selectors(),
{
    let mut selectors: Vec<u32> = Vec::new();
    selectors.push(GET_COLLATOR_LIST);
    selectors.push(JOIN_DELEGATORS);
    selectors.push(DELEGATE_ANOTHER_CANDIDATE);
    selectors.push(LEAVE_DELEGATORS);
    selectors.push(REVOKE_DELEGATION);
    selectors.push(DELEGATOR_STAKE_MORE);
    selectors.push(DELEGATOR_STAKE_LESS);
    selectors.push(UNLOCK_UNSTAKED);
    proof {
        assert(selectors@ =~= all_selectors());
    }
    Precompiles { selectors }
}

/// What a call hands back to its caller.
#[derive(Debug)]
pub enum CallOutput {
    /// The collator list, for the view call.
    Collators(Vec<CollatorInfo>),
    /// The lock to apply, for a call that changed the ledger.
    Lock(LockInstruction),
}

/// Why `ledger` would reject `call` made by `caller` at block `now`, if it would.
pub open spec fn call_error(ledger: &Ledger, caller: u64, call: PCall, now: u64) -> Option<
    StakingError,
> {
    match call {
        PCall::GetCollatorList => None,
        PCall::JoinDelegators { collator, stake } => ledger.delegate_error(
            caller,
            collator,
            stake,
            false,
        ),
        PCall::DelegateAnotherCandidate { collator, stake } => ledger.delegate_error(
            caller,
            collator,
            stake,
            true,
        ),
        PCall::LeaveDelegators => ledger.leave_delegators_error(caller, now),
        PCall::RevokeDelegation { collator } => ledger.revoke_delegation_error(caller, collator, now),
        PCall::DelegatorStakeMore { collator, stake } => ledger.delegator_stake_more_error(
            caller,
            collator,
            stake,
        ),
        PCall::DelegatorStakeLess { collator, stake } => ledger.delegator_stake_less_error(
            caller,
            collator,
            stake,
            now,
        ),
        PCall::UnlockUnstaked { .. } => None,
    }
}

/// The account whose lock `call` made by `caller` touches.
pub open spec fn locked_account(caller: u64, call: PCall) -> u64 {
    match call {
        PCall::UnlockUnstaked { target } => target,
        _ => caller,
    }
}

/// What `call` made by `caller` at block `now` makes of the ledger `before`.
pub open spec fn call_effect(after: &Ledger, before: &Ledger, caller: u64, call: PCall, now: u64) -> bool {
    match call {
        PCall::GetCollatorList => *after == *before,
        PCall::JoinDelegators { collator, stake } => after.delegated(before, caller, collator, stake),
        PCall::DelegateAnotherCandidate { collator, stake } => after.delegated(
            before,
            caller,
            collator,
            stake,
        ),
        PCall::LeaveDelegators => after.left(before, caller, now),
        PCall::RevokeDelegation { collator } => after.revoked(before, caller, collator, now),
        PCall::DelegatorStakeMore { collator, stake } => after.stake_raised(
            before,
            caller,
            collator,
            stake,
        ),
        PCall::DelegatorStakeLess { collator, stake } => after.stake_lowered(
            before,
            caller,
            collator,
            stake,
            now,
        ),
        PCall::UnlockUnstaked { target } => after.unlocked(before, target, now),
    }
}

impl Precompiles {
    /// Carries out `call` for `caller` at block `now` by the ledger operation
    /// of the same name. A rejected call leaves the ledger as it was.
    pub fn execute(&self, ledger: &mut Ledger, caller: u64, call: PCall, now: u64) -> (r: Result<
        CallOutput,
        StakingError,
    >)
        requires
            old(ledger).well_formed(),
            now + old(ledger).config.unstaking_delay <= u64::MAX,
        ensures
            final(ledger).well_formed(),
            match r {
                Err(e) => call_error(old(ledger), caller, call, now) == Some(e) && *final(ledger)
                    == *old(ledger),
                Ok(output) => {
                    &&& call_error(old(ledger), caller, call, now) is None
                    &&& call_effect(final(ledger), old(ledger), caller, call, now)
                    &&& match output {
                        CallOutput::Collators(list) => call == PCall::GetCollatorList && old(ledger).is_collator_list(list@),
                        CallOutput::Lock(instruction) => call != PCall::GetCollatorList
                            && instruction == final(ledger).lock_instruction(
                            locked_account(caller, call),
                        ),
                    }
                },
            },
    {
        match call {
            PCall::GetCollatorList => Ok(CallOutput::Collators(ledger.get_collator_list())),
            PCall::JoinDelegators { collator, stake } => {
                match ledger.join_delegators(caller, collator, stake) {
                    Ok(instruction) => Ok(CallOutput::Lock(instruction)),
                    Err(e) => Err(e),
                }
            },
            PCall::DelegateAnotherCandidate { collator, stake } => {
                match ledger.delegate_another_candidate(caller, collator, stake) {
                    Ok(instruction) => Ok(CallOutput::Lock(instruction)),
                    Err(e) => Err(e),
                }
            },
            PCall::LeaveDelegators => {
                match ledger.leave_delegators(caller, now) {
                    Ok(instruction) => Ok(CallOutput::Lock(instruction)),
                    Err(e) => Err(e),
                }
            },
            PCall::RevokeDelegation { collator } => {
                match ledger.revoke_delegation(caller, collator, now) {
                    Ok(instruction) => Ok(CallOutput::Lock(instruction)),
                    Err(e) => Err(e),
                }
            },
            PCall::DelegatorStakeMore { collator, stake } => {
                match ledger.delegator_stake_more(caller, collator, stake) {
                    Ok(instruction) => Ok(CallOutput::Lock(instruction)),
                    Err(e) => Err(e),
                }
            },
            PCall::DelegatorStakeLess { collator, stake } => {
                match ledger.delegator_stake_less(caller, collator, stake, now) {
                    Ok(instruction) => Ok(CallOutput::Lock(instruction)),
                    Err(e) => Err(e),
                }
            },
            PCall::UnlockUnstaked { target } => Ok(
                CallOutput::Lock(ledger.unlock_unstaked(target, now)),
            ),
        }
    }
}

} // verus!
