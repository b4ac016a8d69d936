use vstd::prelude::*;
use crate::ledger::{Ledger, SelfBond, Delegation, LockInstruction, bond_amounts, delegation_amounts, amounts_by, delegation_count, lemma_filtered_bounds};
use crate::sums::{lemma_sum_push, lemma_sum_update, lemma_sum_bounds_element, lemma_sum_non_negative};
use crate::types::{StakingError};


verus! {

impl Ledger {
    /// Why `join_candidate` would reject a request, if it would.
    pub open spec fn join_candidate_error(&self, owner: u64, amount: u128) -> Option<StakingError> {
        if amount == 0 {
            Some(StakingError::InvalidAmount)
        } else if self.is_candidate(owner) {
            Some(StakingError::DuplicateDelegation)
        } else if amount < self.config.min_collator_stake {
            Some(StakingError::BelowMinimum)
        } else if self.grand_total() + amount > u128::MAX {
            Some(StakingError::InvalidAmount)
        } else {
            None
        }
    }

    /// Why `candidate_stake_more` would reject a request, if it would.
    pub open spec fn candidate_stake_more_error(&self, owner: u64, amount: u128) -> Option<
        StakingError,
    > {
        if amount == 0 {
            Some(StakingError::InvalidAmount)
        } else if !self.is_candidate(owner) {
            Some(StakingError::NotFound)
        } else if self.grand_total() + amount > u128::MAX {
            Some(StakingError::InvalidAmount)
        } else {
            None
        }
    }

    /// Why a new delegation would be rejected, if it would. With
    /// `needs_state` the delegator must hold a delegation already.
    pub open spec fn delegate_error(
        &self,
        delegator: u64,
        candidate: u64,
        amount: u128,
        needs_state: bool,
    ) -> Option<StakingError> {
        if amount == 0 {
            Some(StakingError::InvalidAmount)
        } else if needs_state && delegation_count(self.delegations@, delegator) == 0 {
            Some(StakingError::NotFound)
        } else if !self.is_candidate(candidate) {
            Some(StakingError::NotFound)
        } else if amount < self.config.min_delegator_stake {
            Some(StakingError::BelowMinimum)
        } else if self.has_delegation(delegator, candidate) {
            Some(StakingError::DuplicateDelegation)
        } else if delegation_count(self.delegations@, delegator) >= self.config.max_delegations {
            Some(StakingError::CapacityExceeded)
        } else if self.grand_total() + amount > u128::MAX {
            Some(StakingError::InvalidAmount)
        } else {
            None
        }
    }

    /// Why `delegator_stake_more` would reject a request, if it would.
    pub open spec fn delegator_stake_more_error(
        &self,
        delegator: u64,
        candidate: u64,
        amount: u128,
    ) -> Option<StakingError> {
        if amount == 0 {
            Some(StakingError::InvalidAmount)
        } else if !self.has_delegation(delegator, candidate) {
            Some(StakingError::NotFound)
        } else if self.grand_total() + amount > u128::MAX {
            Some(StakingError::InvalidAmount)
        } else {
            None
        }
    }

    /// Makes `owner` a candidate with a bond of `amount`, which is added to
    /// the collators' aggregate and to the owner's lock.
    pub fn join_candidate(&mut self, owner: u64, amount: u128) -> (r: Result<
        LockInstruction,
        StakingError,
    >)
        requires
            old(self).well_formed(),
        ensures
            final(self).well_formed(),
            match r {
                Err(e) => old(self).join_candidate_error(owner, amount) == Some(e) && *final(self)
                    == *old(self),
                Ok(instruction) => {
                    &&& old(self).join_candidate_error(owner, amount) is None
                    &&& final(self).candidates@ == old(self).candidates@.push(
                        SelfBond { owner, amount },
                    )
                    &&& final(self).delegations == old(self).delegations
                    &&& final(self).accounts == old(self).accounts
                    &&& final(self).config == old(self).config
                    &&& final(self).pending == old(self).pending
                    &&& final(self).total.collators == old(self).total.collators + amount
                    &&& final(self).total.delegators == old(self).total.delegators
                    &&& final(self).lock_of(owner) == old(self).lock_of(owner) + amount
                    &&& instruction == final(self).lock_instruction(owner)
                },
            },
    {
        if amount == 0 {
            return Err(StakingError::InvalidAmount);
        }
        if self.find_candidate(owner).is_some() {
            return Err(StakingError::DuplicateDelegation);
        }
        if amount < self.config.min_collator_stake {
            return Err(StakingError::BelowMinimum);
        }
        if amount > u128::MAX - self.total.collators - self.total.delegators - self.pending {
            return Err(StakingError::InvalidAmount);
        }
        let ghost before = *self;
        self.candidates.push(SelfBond { owner, amount });
        self.total.collators = self.total.collators + amount;
        proof {
            assert(bond_amounts(self.candidates@) =~= bond_amounts(before.candidates@).push(
                amount as int,
            ));
            lemma_sum_push(bond_amounts(before.candidates@), amount as int);
            self.lemma_candidate_at(before.candidates@.len() as int);
            self.lemma_still_backed(&before);
        }
        Ok(self.lock_instruction_for(owner))
    }

    /// Adds `amount` to the bond of candidate `owner`, to the collators'
    /// aggregate and to the owner's lock.
    pub fn candidate_stake_more(&mut self, owner: u64, amount: u128) -> (r: Result<
        LockInstruction,
        StakingError,
    >)
        requires
            old(self).well_formed(),
        ensures
            final(self).well_formed(),
            match r {
                Err(e) => old(self).candidate_stake_more_error(owner, amount) == Some(e) && *final(self) == *old(self),
                Ok(instruction) => {
                    &&& old(self).candidate_stake_more_error(owner, amount) is None
                    &&& final(self).candidates@ == old(self).candidates@.update(
                        old(self).candidate_index(owner),
                        SelfBond { owner, amount: (old(self).self_stake_of(owner) + amount) as u128 },
                    )
                    &&& final(self).delegations == old(self).delegations
                    &&& final(self).accounts == old(self).accounts
                    &&& final(self).config == old(self).config
                    &&& final(self).pending == old(self).pending
                    &&& final(self).total.collators == old(self).total.collators + amount
                    &&& final(self).total.delegators == old(self).total.delegators
                    &&& final(self).lock_of(owner) == old(self).lock_of(owner) + amount
                    &&& instruction == final(self).lock_instruction(owner)
                },
            },
    {
        if amount == 0 {
            return Err(StakingError::InvalidAmount);
        }
        let found = self.find_candidate(owner);
        if found.is_none() {
            return Err(StakingError::NotFound);
        }
        if amount > u128::MAX - self.total.collators - self.total.delegators - self.pending {
            return Err(StakingError::InvalidAmount);
        }
        let k = found.unwrap();
        let ghost before = *self;
        proof {
            lemma_sum_non_negative(bond_amounts(before.candidates@));
            lemma_sum_bounds_element(bond_amounts(before.candidates@), k as int);
        }
        let raised = SelfBond { owner, amount: self.candidates[k].amount + amount };
        self.candidates.set(k, raised);
        self.total.collators = self.total.collators + amount;
        proof {
            assert(bond_amounts(self.candidates@) =~= bond_amounts(before.candidates@).update(
                k as int,
                raised.amount as int,
            ));
            lemma_sum_update(bond_amounts(before.candidates@), k as int, raised.amount as int);
            self.lemma_candidate_at(k as int);
            self.lemma_still_backed(&before);
        }
        Ok(self.lock_instruction_for(owner))
    }

    /// Records a delegation of `amount` from `delegator` to `candidate`,
    /// whether or not the delegator holds other delegations already. The
    /// amount is added to the delegators' aggregate and to the delegator's lock.
    pub fn join_delegators(&mut self, delegator: u64, candidate: u64, amount: u128) -> (r: Result<
        LockInstruction,
        StakingError,
    >)
        requires
            old(self).well_formed(),
        ensures
            final(self).well_formed(),
            match r {
                Err(e) => old(self).delegate_error(delegator, candidate, amount, false) == Some(e)
                    && *final(self) == *old(self),
                Ok(instruction) => {
                    &&& old(self).delegate_error(delegator, candidate, amount, false) is None
                    &&& final(self).delegated(old(self), delegator, candidate, amount)
                    &&& instruction == final(self).lock_instruction(delegator)
                },
            },
    {
        self.delegate(delegator, candidate, amount, false)
    }

    /// Records a further delegation of `amount` from `delegator`, who must
    /// hold at least one delegation already, to `candidate`.
    pub fn delegate_another_candidate(&mut self, delegator: u64, candidate: u64, amount: u128) -> (r:
        Result<LockInstruction, StakingError>)
        requires
            old(self).well_formed(),
        ensures
            final(self).well_formed(),
            match r {
                Err(e) => old(self).delegate_error(delegator, candidate, amount, true) == Some(e)
                    && *final(self) == *old(self),
                Ok(instruction) => {
                    &&& old(self).delegate_error(delegator, candidate, amount, true) is None
                    &&& final(self).delegated(old(self), delegator, candidate, amount)
                    &&& instruction == final(self).lock_instruction(delegator)
                },
            },
    {
        self.delegate(delegator, candidate, amount, true)
    }

    /// The ledger is `before` with one more delegation, of `amount` from
    /// `delegator` to `candidate`, at the end of the list.
    pub open spec fn delegated(
        &self,
        before: &Ledger,
        delegator: u64,
        candidate: u64,
        amount: u128,
    ) -> bool {
        &&& self.delegations@ == before.delegations@.push(Delegation { delegator, candidate, amount })
        &&& self.candidates == before.candidates
        &&& self.accounts == before.accounts
        &&& self.config == before.config
        &&& self.pending == before.pending
        &&& self.total.collators == before.total.collators
        &&& self.total.delegators == before.total.delegators + amount
        &&& self.lock_of(delegator) == before.lock_of(delegator) + amount
        &&& delegation_count(self.delegations@, delegator) == delegation_count(
            before.delegations@,
            delegator,
        ) + 1
    }

    /// Records a new delegation; with `needs_state` only for a delegator who
    /// holds one already.
    pub(crate) fn delegate(
        &mut self,
        delegator: u64,
        candidate: u64,
        amount: u128,
        needs_state: bool,
    ) -> (r: Result<LockInstruction, StakingError>)
        requires
            old(self).well_formed(),
        ensures
            final(self).well_formed(),
            match r {
                Err(e) => old(self).delegate_error(delegator, candidate, amount, needs_state)
                    == Some(e) && *final(self) == *old(self),
                Ok(instruction) => {
                    &&& old(self).delegate_error(delegator, candidate, amount, needs_state) is None
                    &&& final(self).delegated(old(self), delegator, candidate, amount)
                    &&& instruction == final(self).lock_instruction(delegator)
                },
            },
    {
        if amount == 0 {
            return Err(StakingError::InvalidAmount);
        }
        let held = self.count_delegations(delegator);
        if needs_state && held == 0 {
            return Err(StakingError::NotFound);
        }
        if self.find_candidate(candidate).is_none() {
            return Err(StakingError::NotFound);
        }
        if amount < self.config.min_delegator_stake {
            return Err(StakingError::BelowMinimum);
        }
        if self.find_delegation(delegator, candidate).is_some() {
            return Err(StakingError::DuplicateDelegation);
        }
        if held >= self.config.max_delegations {
            return Err(StakingError::CapacityExceeded);
        }
        if amount > u128::MAX - self.total.collators - self.total.delegators - self.pending {
            return Err(StakingError::InvalidAmount);
        }
        let ghost before = *self;
        let fresh = Delegation { delegator, candidate, amount };
        self.delegations.push(fresh);
        self.total.delegators = self.total.delegators + amount;
        proof {
            let s = before.delegations@;
            assert(delegation_amounts(self.delegations@) =~= delegation_amounts(s).push(
                amount as int,
            ));
            lemma_sum_push(delegation_amounts(s), amount as int);
            assert(amounts_by(self.delegations@, delegator) =~= amounts_by(s, delegator).push(
                amount as int,
            ));
            lemma_sum_push(amounts_by(s, delegator), amount as int);
            assert(crate::ledger::marks_by(self.delegations@, delegator)
                =~= crate::ledger::marks_by(s, delegator).push(1int));
            lemma_sum_push(crate::ledger::marks_by(s, delegator), 1int);
            self.lemma_same_lookups(&before);
            assert forall|i: int| 0 <= i < s.len() implies self.has_delegators(
                (#[trigger] s[i]).candidate,
            ) by {
                assert(self.delegations@[i].candidate == s[i].candidate);
            }
            assert(self.candidates_engaged()) by {
                assert forall|x: int| 0 <= x < self.candidates@.len() implies (
                #[trigger] self.candidates@[x]).amount > 0 || self.has_delegators(
                    self.candidates@[x].owner,
                ) by {
                    if before.candidates@[x].amount == 0 {
                        assert(before.has_delegators(before.candidates@[x].owner));
                        let i = choose|i: int|
                            0 <= i < s.len() && s[i].candidate == before.candidates@[x].owner;
                        assert(self.has_delegators(s[i].candidate));
                    }
                }
            }
            assert forall|i: int| 0 <= i < self.delegations@.len() implies self.is_candidate(
                (#[trigger] self.delegations@[i]).candidate,
            ) by {
                let c = self.delegations@[i].candidate;
                if i < s.len() {
                    assert(s[i].candidate == c);
                }
                assert(before.is_candidate(c));
                let j = before.candidate_index(c);
                assert(self.candidates@[j].owner == c);
            }
        }
        Ok(self.lock_instruction_for(delegator))
    }

    /// The ledger is `before` with `amount` more in the delegation of `delegator` to `candidate`.
    pub open spec fn stake_raised(&self, before: &Ledger, delegator: u64, candidate: u64, amount: u128) -> bool {
        &&& self.delegations@ == before.delegations@.update(
            before.delegation_index(delegator, candidate),
            Delegation {
                delegator,
                candidate,
                amount: (before.delegation_of(delegator, candidate) + amount) as u128,
            },
        )
        &&& self.candidates == before.candidates
        &&& self.accounts == before.accounts
        &&& self.config == before.config
        &&& self.pending == before.pending
        &&& self.total.collators == before.total.collators
        &&& self.total.delegators == before.total.delegators + amount
        &&& self.lock_of(delegator) == before.lock_of(delegator) + amount
    }

    /// Adds `amount` to the delegation of `delegator` to `candidate`, to the
    /// delegators' aggregate and to the delegator's lock.
    pub fn delegator_stake_more(&mut self, delegator: u64, candidate: u64, amount: u128) -> (r:
        Result<LockInstruction, StakingError>)
        requires
            old(self).well_formed(),
        ensures
            final(self).well_formed(),
            match r {
                Err(e) => old(self).delegator_stake_more_error(delegator, candidate, amount)
                    == Some(e) && *final(self) == *old(self),
                Ok(instruction) => {
                    &&& old(self).delegator_stake_more_error(delegator, candidate, amount) is None
                    &&& final(self).stake_raised(old(self), delegator, candidate, amount)
                    &&& instruction == final(self).lock_instruction(delegator)
                },
            },
    {
        if amount == 0 {
            return Err(StakingError::InvalidAmount);
        }
        let found = self.find_delegation(delegator, candidate);
        if found.is_none() {
            return Err(StakingError::NotFound);
        }
        if amount > u128::MAX - self.total.collators - self.total.delegators - self.pending {
            return Err(StakingError::InvalidAmount);
        }
        let k = found.unwrap();
        let ghost before = *self;
        proof {
            lemma_filtered_bounds(before.delegations@, delegator);
            lemma_sum_bounds_element(delegation_amounts(before.delegations@), k as int);
        }
        let raised = Delegation { delegator, candidate, amount: self.delegations[k].amount + amount };
        self.delegations.set(k, raised);
        self.total.delegators = self.total.delegators + amount;
        proof {
            let s = before.delegations@;
            assert(delegation_amounts(self.delegations@) =~= delegation_amounts(s).update(
                k as int,
                raised.amount as int,
            ));
            lemma_sum_update(delegation_amounts(s), k as int, raised.amount as int);
            assert(amounts_by(self.delegations@, delegator) =~= amounts_by(s, delegator).update(
                k as int,
                raised.amount as int,
            ));
            lemma_sum_update(amounts_by(s, delegator), k as int, raised.amount as int);
            self.lemma_same_lookups(&before);
            assert forall|i: int| 0 <= i < s.len() implies self.has_delegators(
                (#[trigger] s[i]).candidate,
            ) by {
                assert(self.delegations@[i].candidate == s[i].candidate);
            }
            assert(self.candidates_engaged()) by {
                assert forall|x: int| 0 <= x < self.candidates@.len() implies (
                #[trigger] self.candidates@[x]).amount > 0 || self.has_delegators(
                    self.candidates@[x].owner,
                ) by {
                    if before.candidates@[x].amount == 0 {
                        assert(before.has_delegators(before.candidates@[x].owner));
                        let i = choose|i: int|
                            0 <= i < s.len() && s[i].candidate == before.candidates@[x].owner;
                        assert(self.has_delegators(s[i].candidate));
                    }
                }
            }
            assert forall|i: int| 0 <= i < self.delegations@.len() implies self.is_candidate(
                (#[trigger] self.delegations@[i]).candidate,
            ) by {
                let c = s[i].candidate;
                assert(self.delegations@[i].candidate == c);
                assert(before.is_candidate(c));
                let j = before.candidate_index(c);
                assert(self.candidates@[j].owner == c);
            }
        }
        Ok(self.lock_instruction_for(delegator))
    }
}

} // verus!
