use vstd::prelude::*;
use crate::ledger::{has_delegators, Ledger, SelfBond, Delegation, StakeAccount, LockInstruction, bond_amounts, delegation_amounts, amounts_by, pending_amounts, lemma_filtered_bounds, lemma_pending_non_negative};
use crate::sums::{lemma_sum_push, lemma_sum_update, lemma_sum_remove, lemma_sum_bounds_element, lemma_sum_non_negative};
use crate::types::StakingError;
use crate::unstaking::{UnstakeEntry, UnstakingQueue, queue_total, amount_at, after_release, mature_total, mature_prefix, enqueue_error, lemma_total_non_negative, lemma_mature_count};

verus! {

impl Ledger {
    /// The block at which stake removed at `now` becomes releasable.
    pub open spec fn maturity(&self, now: u64) -> u64 {
        (now + self.config.unstaking_delay) as u64
    }

    /// Why the queue of `account` would refuse `amount` at `now`, if it would.
    pub open spec fn schedule_error(&self, account: u64, amount: u128, now: u64) -> Option<
        StakingError,
    > {
        enqueue_error(
            self.unstaking_of(account),
            amount,
            self.maturity(now),
            self.config.max_unstake_requests,
        )
    }

    /// The queues are those of `before`, but for `amount` more that waits
    /// for `account` at block `maturity`.
    pub open spec fn scheduled(&self, before: &Ledger, account: u64, amount: u128, maturity: u64) -> bool {
        &&& forall|other: u64|
            other != account ==> #[trigger] self.unstaking_of(other) == before.unstaking_of(other)
        &&& forall|b: u64|
            #[trigger] amount_at(self.unstaking_of(account), b) == amount_at(
                before.unstaking_of(account),
                b,
            ) + (if b == maturity {
                amount as int
            } else {
                0
            })
        &&& queue_total(self.unstaking_of(account)) == queue_total(before.unstaking_of(account))
            + amount
        &&& self.pending == before.pending + amount
    }

    /// Whether the queue of `account` would refuse `amount` at `now`, and why.
    pub fn check_schedule(&self, account: u64, amount: u128, now: u64) -> (e: Option<StakingError>)
        requires
            self.well_formed(),
            now + self.config.unstaking_delay <= u64::MAX,
        ensures
            e == self.schedule_error(account, amount, now),
    {
        match self.find_account(account) {
            Some(i) => self.accounts[i].unstaking.check_enqueue(amount, now, &self.config),
            None => {
                let empty = UnstakingQueue::new();
                empty.check_enqueue(amount, now, &self.config)
            },
        }
    }

    /// Puts `amount` into the unstaking queue of `account`, to mature
    /// `unstaking_delay` blocks after `now`.
    pub(crate) fn schedule(&mut self, account: u64, amount: u128, now: u64)
        requires
            old(self).queues_consistent(),
            old(self).schedule_error(account, amount, now) is None,
            old(self).pending + amount <= u128::MAX,
            now + old(self).config.unstaking_delay <= u64::MAX,
        ensures
            final(self).queues_consistent(),
            final(self).scheduled(old(self), account, amount, old(self).maturity(now)),
            old(self).delegations_backed() ==> final(self).delegations_backed(),
            forall|a: u64| #[trigger] final(self).engaged_but(a) == old(self).engaged_but(a),
            final(self).candidates == old(self).candidates,
            final(self).delegations == old(self).delegations,
            final(self).total == old(self).total,
            final(self).config == old(self).config,
    {
        let ghost before = *self;
        let config = self.config;
        let found = self.find_account(account);
        match found {
            Some(i) => {
                proof {
                    before.lemma_account_at(i as int);
                }
                let mut record = self.accounts.remove(i);
                let r = record.unstaking.enqueue(amount, now, &config);
                assert(r is Ok);
                self.accounts.insert(i, record);
                self.pending = self.pending + amount;
                proof {
                    let total = queue_total(self.accounts@[i as int].unstaking@);
                    assert(self.accounts@.len() == before.accounts@.len());
                    assert forall|j: int| 0 <= j < self.accounts@.len() && j != i implies self.accounts@[j]
                        == before.accounts@[j] by {}
                    assert(pending_amounts(self.accounts@) =~= pending_amounts(
                        before.accounts@,
                    ).update(i as int, total));
                    lemma_sum_update(pending_amounts(before.accounts@), i as int, total);
                    assert(self.queues_consistent());
                    self.lemma_account_at(i as int);
                    assert forall|other: u64| other != account implies #[trigger] self.unstaking_of(
                        other,
                    ) == before.unstaking_of(other) by {
                        if before.has_account(other) {
                            let j = before.account_index(other);
                            assert(self.accounts@[j].owner == other);
                            self.lemma_account_at(j);
                        } else if self.has_account(other) {
                            let j = self.account_index(other);
                            assert(before.accounts@[j].owner == other);
                        }
                    }
                }
            },
            None => {
                let mut queue = UnstakingQueue::new();
                let r = queue.enqueue(amount, now, &config);
                assert(r is Ok);
                self.accounts.push(StakeAccount { owner: account, unstaking: queue });
                self.pending = self.pending + amount;
                proof {
                    let n = before.accounts@.len() as int;
                    let total = queue_total(self.accounts@[n].unstaking@);
                    assert(pending_amounts(self.accounts@) =~= pending_amounts(
                        before.accounts@,
                    ).push(total));
                    lemma_sum_push(pending_amounts(before.accounts@), total);
                    assert forall|j: int| 0 <= j < n implies self.accounts@[j]
                        == before.accounts@[j] by {}
                    assert(self.queues_consistent());
                    self.lemma_account_at(n);
                    assert forall|other: u64| other != account implies #[trigger] self.unstaking_of(
                        other,
                    ) == before.unstaking_of(other) by {
                        if before.has_account(other) {
                            let j = before.account_index(other);
                            assert(self.accounts@[j].owner == other);
                            self.lemma_account_at(j);
                        } else if self.has_account(other) {
                            let j = self.account_index(other);
                            assert(before.accounts@[j].owner == other);
                        }
                    }
                }
            },
        }
        proof {
            if before.delegations_backed() {
                self.lemma_still_backed(&before);
            }
            self.lemma_same_engagement(&before);
        }
    }

    /// Whether candidate `account` has neither a bond nor delegators left.
    pub open spec fn is_idle(&self, account: u64) -> bool {
        self.is_candidate(account) && self.self_stake_of(account) == 0 && !has_delegators(
            self.delegations@,
            account,
        )
    }

    /// The candidates of `self` once `account` has been dropped if idle.
    pub open spec fn without_idle(&self, account: u64) -> Seq<SelfBond> {
        if self.is_idle(account) {
            self.candidates@.remove(self.candidate_index(account))
        } else {
            self.candidates@
        }
    }

    /// Whether anyone delegates to `candidate`.
    pub fn any_delegators(&self, candidate: u64) -> (r: bool)
        ensures
            r == has_delegators(self.delegations@, candidate),
    {
        let mut i: usize = 0;
        while i < self.delegations.len()
            invariant
                0 <= i <= self.delegations@.len(),
                forall|k: int| 0 <= k < i ==> self.delegations@[k].candidate != candidate,
            decreases self.delegations@.len() - i,
        {
            if self.delegations[i].candidate == candidate {
                return true;
            }
            i = i + 1;
        }
        false
    }

    /// Removes candidate `account` from the candidate set where its bond is
    /// zero and nobody delegates to it.
    pub(crate) fn drop_if_idle(&mut self, account: u64)
        requires
            old(self).stakes_consistent(),
        ensures
            final(self).stakes_consistent(),
            final(self).candidates@ == old(self).without_idle(account),
            old(self).delegations_backed() ==> final(self).delegations_backed(),
            old(self).engaged_but(account) ==> final(self).candidates_engaged(),
            final(self).delegations == old(self).delegations,
            final(self).accounts == old(self).accounts,
            final(self).total == old(self).total,
            final(self).pending == old(self).pending,
            final(self).config == old(self).config,
            forall|other: u64| #[trigger]
                final(self).self_stake_of(other) == old(self).self_stake_of(other),
    {
        let ghost before = *self;
        match self.find_candidate(account) {
            Some(k) => {
                if self.candidates[k].amount == 0 && !self.any_delegators(account) {
                    self.candidates.remove(k);
                    proof {
                        let s = before.candidates@;
                        assert(bond_amounts(self.candidates@) =~= bond_amounts(s).remove(k as int));
                        lemma_sum_remove(bond_amounts(s), k as int);
                        assert(self.stakes_consistent());
                        if before.delegations_backed() {
                            assert forall|i: int| 0 <= i < self.delegations@.len() implies self.is_candidate(
                                (#[trigger] self.delegations@[i]).candidate,
                            ) by {
                                let c = before.delegations@[i].candidate;
                                assert(before.is_candidate(c));
                                let j = before.candidate_index(c);
                                assert(c != account);
                                let j1 = if j < k { j } else { j - 1 };
                                assert(self.candidates@[j1].owner == c);
                            }
                        }
                        assert forall|other: u64| #[trigger]
                            self.self_stake_of(other) == before.self_stake_of(other) by {
                            if before.is_candidate(other) {
                                let j = before.candidate_index(other);
                                before.lemma_candidate_at(j);
                                if j != k {
                                    let j1 = if j < k { j } else { j - 1 };
                                    assert(self.candidates@[j1] == s[j]);
                                    self.lemma_candidate_at(j1);
                                } else if self.is_candidate(other) {
                                    let i = self.candidate_index(other);
                                    let i0 = if i < k { i } else { i + 1 };
                                    assert(s[i0].owner == other);
                                }
                            } else if self.is_candidate(other) {
                                let i = self.candidate_index(other);
                                let i0 = if i < k { i } else { i + 1 };
                                assert(s[i0].owner == other);
                            }
                        }
                    }
                }
            },
            None => {},
        }
        proof {
            if before.engaged_but(account) {
                assert(has_delegators(before.delegations@, account) == before.has_delegators(
                    account,
                ));
                assert forall|k: int| 0 <= k < self.candidates@.len() implies (
                #[trigger] self.candidates@[k]).amount > 0 || self.has_delegators(
                    self.candidates@[k].owner,
                ) by {
                    let bond = self.candidates@[k];
                    if before.is_idle(account) {
                        let m = before.candidate_index(account);
                        let k0 = if k < m { k } else { k + 1 };
                        assert(before.candidates@[k0] == bond);
                        before.lemma_candidate_at(m);
                        assert(bond.owner != account) by {
                            if k0 < m {
                                assert(before.candidates@[k0].owner != before.candidates@[m].owner);
                            } else {
                                assert(before.candidates@[m].owner != before.candidates@[k0].owner);
                            }
                        }
                        if bond.amount == 0 {
                            assert(before.has_delegators(bond.owner));
                            let i = choose|i: int|
                                0 <= i < before.delegations@.len() && before.delegations@[i].candidate
                                    == bond.owner;
                            assert(self.delegations@[i].candidate == bond.owner);
                        }
                    } else {
                        assert(before.candidates@[k] == bond);
                        if bond.owner == account {
                            before.lemma_candidate_at(k);
                        }
                        if bond.amount == 0 {
                            assert(before.has_delegators(bond.owner));
                            let i = choose|i: int|
                                0 <= i < before.delegations@.len() && before.delegations@[i].candidate
                                    == bond.owner;
                            assert(self.delegations@[i].candidate == bond.owner);
                        }
                    }
                }
            }
        }
    }

    /// Why `delegator_stake_less` would reject a request, if it would.
    pub open spec fn delegator_stake_less_error(
        &self,
        delegator: u64,
        candidate: u64,
        amount: u128,
        now: u64,
    ) -> Option<StakingError> {
        if amount == 0 {
            Some(StakingError::InvalidAmount)
        } else if !self.has_delegation(delegator, candidate) {
            Some(StakingError::NotFound)
        } else if amount >= self.delegation_of(delegator, candidate) || self.delegation_of(
            delegator,
            candidate,
        ) - amount < self.config.min_delegator_stake {
            Some(StakingError::BelowMinimum)
        } else {
            self.schedule_error(delegator, amount, now)
        }
    }

    /// Why `revoke_delegation` would reject a request, if it would.
    pub open spec fn revoke_delegation_error(&self, delegator: u64, candidate: u64, now: u64) -> Option<
        StakingError,
    > {
        if !self.has_delegation(delegator, candidate) {
            Some(StakingError::NotFound)
        } else {
            self.schedule_error(
                delegator,
                self.delegation_of(delegator, candidate) as u128,
                now,
            )
        }
    }

    /// Why `candidate_stake_less` would reject a request, if it would.
    pub open spec fn candidate_stake_less_error(&self, owner: u64, amount: u128, now: u64) -> Option<
        StakingError,
    > {
        if amount == 0 {
            Some(StakingError::InvalidAmount)
        } else if !self.is_candidate(owner) {
            Some(StakingError::NotFound)
        } else if amount > self.self_stake_of(owner) || 0 < self.self_stake_of(owner) - amount
            < self.config.min_collator_stake {
            Some(StakingError::BelowMinimum)
        } else {
            self.schedule_error(owner, amount, now)
        }
    }

    /// The ledger is `before` with `amount` moved from the delegation of `delegator` to `candidate` into the delegator's unstaking queue.
    pub open spec fn stake_lowered(&self, before: &Ledger, delegator: u64, candidate: u64, amount: u128, now: u64) -> bool {
        &&& self.delegations@ == before.delegations@.update(
            before.delegation_index(delegator, candidate),
            Delegation {
                delegator,
                candidate,
                amount: (before.delegation_of(delegator, candidate) - amount) as u128,
            },
        )
        &&& self.candidates == before.candidates
        &&& self.config == before.config
        &&& self.total.collators == before.total.collators
        &&& self.total.delegators == before.total.delegators - amount
        &&& self.scheduled(before, delegator, amount, before.maturity(now))
        &&& self.lock_of(delegator) == before.lock_of(delegator)
    }

    /// Takes `amount` off the delegation of `delegator` to `candidate` and
    /// off the delegators' aggregate, and puts it into the delegator's
    /// unstaking queue. The delegation must keep the minimum; the lock stays.
    pub fn delegator_stake_less(
        &mut self,
        delegator: u64,
        candidate: u64,
        amount: u128,
        now: u64,
    ) -> (r: Result<LockInstruction, StakingError>)
        requires
            old(self).well_formed(),
            now + old(self).config.unstaking_delay <= u64::MAX,
        ensures
            final(self).well_formed(),
            match r {
                Err(e) => old(self).delegator_stake_less_error(delegator, candidate, amount, now)
                    == Some(e) && *final(self) == *old(self),
                Ok(instruction) => {
                    &&& old(self).delegator_stake_less_error(delegator, candidate, amount, now) is None
                    &&& final(self).stake_lowered(old(self), delegator, candidate, amount, now)
                    &&& instruction == final(self).lock_instruction(delegator)
                },
            },
    {
        if amount == 0 {
            return Err(StakingError::InvalidAmount);
        }
        let found = self.find_delegation(delegator, candidate);
        if found.is_none() {
            return Err(StakingError::NotFound);
        }
        let k = found.unwrap();
        let held = self.delegations[k].amount;
        if amount >= held || held - amount < self.config.min_delegator_stake {
            return Err(StakingError::BelowMinimum);
        }
        match self.check_schedule(delegator, amount, now) {
            Some(e) => {
                return Err(e);
            },
            None => {},
        }
        let ghost before = *self;
        proof {
            lemma_filtered_bounds(before.delegations@, delegator);
            lemma_sum_bounds_element(delegation_amounts(before.delegations@), k as int);
        }
        let lowered = Delegation { delegator, candidate, amount: held - amount };
        self.delegations.set(k, lowered);
        self.total.delegators = self.total.delegators - amount;
        proof {
            let s = before.delegations@;
            assert(delegation_amounts(self.delegations@) =~= delegation_amounts(s).update(
                k as int,
                lowered.amount as int,
            ));
            lemma_sum_update(delegation_amounts(s), k as int, lowered.amount as int);
            assert(amounts_by(self.delegations@, delegator) =~= amounts_by(s, delegator).update(
                k as int,
                lowered.amount as int,
            ));
            lemma_sum_update(amounts_by(s, delegator), k as int, lowered.amount as int);
            self.lemma_same_lookups(&before);
            assert forall|i: int| 0 <= i < s.len() implies self.has_delegators(
                (#[trigger] s[i]).candidate,
            ) by {
                assert(self.delegations@[i].candidate == s[i].candidate);
            }
            self.lemma_still_engaged(&before, delegator);
            assert(self.candidates_engaged()) by {
                assert forall|x: int| 0 <= x < self.candidates@.len() implies (
                #[trigger] self.candidates@[x]).amount > 0 || self.has_delegators(
                    self.candidates@[x].owner,
                ) by {
                    if before.candidates@[x].amount == 0 {
                        assert(before.has_delegators(before.candidates@[x].owner));
                        let i = choose|i: int|
                            0 <= i < s.len() && s[i].candidate == before.candidates@[x].owner;
                        assert(self.has_delegators(s[i].candidate));
                    }
                }
            }
            assert forall|i: int| 0 <= i < self.delegations@.len() implies self.is_candidate(
                (#[trigger] self.delegations@[i]).candidate,
            ) by {
                let c = s[i].candidate;
                assert(self.delegations@[i].candidate == c);
                assert(before.is_candidate(c));
                let j = before.candidate_index(c);
                assert(self.candidates@[j].owner == c);
            }
        }
        let ghost lowered_state = *self;
        self.schedule(delegator, amount, now);
        proof {
            self.lemma_same_lookups(&before);
            assert forall|other: u64| other != delegator implies #[trigger] self.unstaking_of(other)
                == before.unstaking_of(other) by {
                assert(self.unstaking_of(other) == lowered_state.unstaking_of(other));
            }
        }
        Ok(self.lock_instruction_for(delegator))
    }

    /// The ledger is `before` with the delegation of `delegator` to `candidate` moved into the delegator's unstaking queue.
    pub open spec fn revoked(&self, before: &Ledger, delegator: u64, candidate: u64, now: u64) -> bool {
        &&& self.delegations@ == before.delegations@.remove(
            before.delegation_index(delegator, candidate),
        )
        &&& self.candidates@ == (if before.is_candidate(candidate) && before.self_stake_of(candidate) == 0 && !has_delegators(
            self.delegations@,
            candidate,
        ) {
            before.candidates@.remove(before.candidate_index(candidate))
        } else {
            before.candidates@
        })
        &&& self.config == before.config
        &&& self.total.collators == before.total.collators
        &&& self.total.delegators == before.total.delegators - before.delegation_of(delegator, candidate)
        &&& self.scheduled(
            before,
            delegator,
            before.delegation_of(delegator, candidate) as u128,
            before.maturity(now),
        )
        &&& self.lock_of(delegator) == before.lock_of(delegator)
        &&& !self.has_delegation(delegator, candidate)
    }

    /// Removes the delegation of `delegator` to `candidate`: its amount
    /// leaves the delegators' aggregate and enters the delegator's unstaking
    /// queue. A candidate left without bond and without delegators is dropped.
    pub fn revoke_delegation(&mut self, delegator: u64, candidate: u64, now: u64) -> (r: Result<
        LockInstruction,
        StakingError,
    >)
        requires
            old(self).well_formed(),
            now + old(self).config.unstaking_delay <= u64::MAX,
        ensures
            final(self).well_formed(),
            match r {
                Err(e) => old(self).revoke_delegation_error(delegator, candidate, now) == Some(e)
                    && *final(self) == *old(self),
                Ok(instruction) => {
                    &&& old(self).revoke_delegation_error(delegator, candidate, now) is None
                    &&& final(self).revoked(old(self), delegator, candidate, now)
                    &&& instruction == final(self).lock_instruction(delegator)
                },
            },
    {
        let found = self.find_delegation(delegator, candidate);
        if found.is_none() {
            return Err(StakingError::NotFound);
        }
        let k = found.unwrap();
        let held = self.delegations[k].amount;
        match self.check_schedule(delegator, held, now) {
            Some(e) => {
                return Err(e);
            },
            None => {},
        }
        let ghost before = *self;
        proof {
            lemma_filtered_bounds(before.delegations@, delegator);
            lemma_sum_bounds_element(delegation_amounts(before.delegations@), k as int);
        }
        self.delegations.remove(k);
        self.total.delegators = self.total.delegators - held;
        proof {
            let s = before.delegations@;
            assert(delegation_amounts(self.delegations@) =~= delegation_amounts(s).remove(k as int));
            lemma_sum_remove(delegation_amounts(s), k as int);
            assert(amounts_by(self.delegations@, delegator) =~= amounts_by(s, delegator).remove(
                k as int,
            ));
            lemma_sum_remove(amounts_by(s, delegator), k as int);
            assert(self.stakes_consistent());
            self.lemma_same_lookups(&before);
            assert forall|i: int|
                0 <= i < s.len() && (#[trigger] s[i]).candidate != candidate implies self.has_delegators(
                s[i].candidate,
            ) by {
                let i1 = if i < k { i } else { i - 1 };
                assert(self.delegations@[i1].candidate == s[i].candidate);
            }
            self.lemma_still_engaged(&before, candidate);
            assert forall|i: int| 0 <= i < self.delegations@.len() implies self.is_candidate(
                (#[trigger] self.delegations@[i]).candidate,
            ) by {
                let i0 = if i < k { i } else { i + 1 };
                let c = s[i0].candidate;
                assert(self.delegations@[i].candidate == c);
                assert(before.is_candidate(c));
                let j = before.candidate_index(c);
                assert(self.candidates@[j].owner == c);
            }
            assert(!self.has_delegation(delegator, candidate)) by {
                if self.has_delegation(delegator, candidate) {
                    let i = self.delegation_index(delegator, candidate);
                    let i0 = if i < k { i } else { i + 1 };
                    assert(s[i0].delegator == delegator && s[i0].candidate == candidate);
                }
            }
            self.lemma_same_lookups(&before);
        }
        let ghost removed_state = *self;
        self.schedule(delegator, held, now);
        let ghost middle = *self;
        proof {
            middle.lemma_same_lookups(&before);
        }
        self.drop_if_idle(candidate);
        proof {
            self.lemma_same_lookups(&middle);
            assert forall|other: u64| other != delegator implies #[trigger] self.unstaking_of(other)
                == before.unstaking_of(other) by {
                assert(middle.unstaking_of(other) == removed_state.unstaking_of(other));
            }
            assert(self.has_delegation(delegator, candidate) == middle.has_delegation(
                delegator,
                candidate,
            ));
        }
        Ok(self.lock_instruction_for(delegator))
    }

    /// Takes `amount` off the bond of candidate `owner` and off the
    /// collators' aggregate, and puts it into the owner's unstaking queue.
    /// What is left must be zero or at least the minimum; a candidate left
    /// without bond and without delegators is dropped.
    pub fn candidate_stake_less(&mut self, owner: u64, amount: u128, now: u64) -> (r: Result<
        LockInstruction,
        StakingError,
    >)
        requires
            old(self).well_formed(),
            now + old(self).config.unstaking_delay <= u64::MAX,
        ensures
            final(self).well_formed(),
            match r {
                Err(e) => old(self).candidate_stake_less_error(owner, amount, now) == Some(e)
                    && *final(self) == *old(self),
                Ok(instruction) => {
                    &&& old(self).candidate_stake_less_error(owner, amount, now) is None
                    &&& final(self).candidates@ == (if old(self).self_stake_of(owner) == amount
                        && !has_delegators(old(self).delegations@, owner) {
                        old(self).candidates@.remove(old(self).candidate_index(owner))
                    } else {
                        old(self).candidates@.update(
                            old(self).candidate_index(owner),
                            SelfBond {
                                owner,
                                amount: (old(self).self_stake_of(owner) - amount) as u128,
                            },
                        )
                    })
                    &&& final(self).delegations == old(self).delegations
                    &&& final(self).config == old(self).config
                    &&& final(self).total.collators == old(self).total.collators - amount
                    &&& final(self).total.delegators == old(self).total.delegators
                    &&& final(self).scheduled(old(self), owner, amount, old(self).maturity(now))
                    &&& final(self).lock_of(owner) == old(self).lock_of(owner)
                    &&& instruction == final(self).lock_instruction(owner)
                },
            },
    {
        if amount == 0 {
            return Err(StakingError::InvalidAmount);
        }
        let found = self.find_candidate(owner);
        if found.is_none() {
            return Err(StakingError::NotFound);
        }
        let k = found.unwrap();
        let held = self.candidates[k].amount;
        if amount > held || (held - amount > 0 && held - amount < self.config.min_collator_stake) {
            return Err(StakingError::BelowMinimum);
        }
        match self.check_schedule(owner, amount, now) {
            Some(e) => {
                return Err(e);
            },
            None => {},
        }
        let ghost before = *self;
        proof {
            lemma_sum_non_negative(bond_amounts(before.candidates@));
            lemma_sum_bounds_element(bond_amounts(before.candidates@), k as int);
            lemma_filtered_bounds(before.delegations@, owner);
        }
        let lowered = SelfBond { owner, amount: held - amount };
        self.candidates.set(k, lowered);
        self.total.collators = self.total.collators - amount;
        proof {
            let s = before.candidates@;
            assert(bond_amounts(self.candidates@) =~= bond_amounts(s).update(
                k as int,
                lowered.amount as int,
            ));
            lemma_sum_update(bond_amounts(s), k as int, lowered.amount as int);
            assert(self.stakes_consistent());
            self.lemma_candidate_at(k as int);
            before.lemma_candidate_at(k as int);
            self.lemma_same_lookups(&before);
            self.lemma_still_backed(&before);
        }
        let ghost lowered_state = *self;
        self.schedule(owner, amount, now);
        let ghost middle = *self;
        proof {
            middle.lemma_same_lookups(&lowered_state);
            middle.lemma_candidate_at(k as int);
        }
        self.drop_if_idle(owner);
        proof {
            self.lemma_same_lookups(&middle);
            assert forall|other: u64| other != owner implies #[trigger] self.unstaking_of(other)
                == before.unstaking_of(other) by {
                assert(middle.unstaking_of(other) == lowered_state.unstaking_of(other));
            }
            if middle.is_idle(owner) {
                assert(middle.candidates@.remove(k as int) =~= before.candidates@.remove(k as int));
            }
        }
        Ok(self.lock_instruction_for(owner))
    }

    /// The ledger is `before` without what was mature at `now` in the
    /// unstaking queue of `account`.
    pub open spec fn unlocked(&self, before: &Ledger, account: u64, now: u64) -> bool {
        &&& self.unstaking_of(account) == after_release(before.unstaking_of(account), now)
        &&& forall|other: u64|
                other != account ==> #[trigger] self.unstaking_of(other) == before.unstaking_of(other)
        &&& self.pending == before.pending - mature_total(
                before.unstaking_of(account),
                now,
            )
        &&& self.lock_of(account) == before.lock_of(account) - mature_total(
                before.unstaking_of(account),
                now,
            )
        &&& self.candidates == before.candidates
        &&& self.delegations == before.delegations
        &&& self.total == before.total
        &&& self.config == before.config
    }

    /// Releases everything in the unstaking queue of `account` that is
    /// mature at `now`, and says what its lock has to be afterwards. An
    /// account without a queue, or with nothing mature, is left as it is.
    pub fn unlock_unstaked(&mut self, account: u64, now: u64) -> (instruction: LockInstruction)
        requires
            old(self).well_formed(),
        ensures
            final(self).well_formed(),
            final(self).unlocked(old(self), account, now),
            instruction == final(self).lock_instruction(account),
    {
        let ghost before = *self;
        match self.find_account(account) {
            Some(i) => {
                proof {
                    before.lemma_account_at(i as int);
                    lemma_pending_non_negative(before.accounts@);
                    lemma_sum_bounds_element(pending_amounts(before.accounts@), i as int);
                }
                let mut record = self.accounts.remove(i);
                let ghost rest = self.accounts@;
                let released = record.unstaking.release(now);
                proof {
                    lemma_total_non_negative(record.unstaking@);
                    assert(pending_amounts(rest) =~= pending_amounts(before.accounts@).remove(
                        i as int,
                    ));
                    lemma_sum_remove(pending_amounts(before.accounts@), i as int);
                }
                self.pending = self.pending - released;
                if record.unstaking.len() > 0 {
                    self.accounts.insert(i, record);
                    proof {
                        let total = queue_total(self.accounts@[i as int].unstaking@);
                        assert(pending_amounts(self.accounts@) =~= pending_amounts(
                            before.accounts@,
                        ).update(i as int, total));
                        lemma_sum_update(pending_amounts(before.accounts@), i as int, total);
                        assert forall|j: int|
                            0 <= j < self.accounts@.len() && j != i implies self.accounts@[j]
                            == before.accounts@[j] by {}
                        self.lemma_queue_replaced(&before, i as int);
                    }
                } else {
                    proof {
                        assert(record.unstaking@ =~= Seq::<UnstakeEntry>::empty());
                        assert(crate::unstaking::amounts(record.unstaking@) =~= Seq::<int>::empty());
                        self.lemma_queue_removed(&before, i as int);
                    }
                }
            },
            None => {
                proof {
                    let empty = Seq::<UnstakeEntry>::empty();
                    assert(mature_prefix(empty, now, 0));
                    lemma_mature_count(empty, now, 0);
                    assert(empty.subrange(0, 0) =~= empty);
                    assert(crate::unstaking::amounts(empty) =~= Seq::<int>::empty());
                }
            },
        }
        proof {
            self.lemma_same_lookups(&before);
            self.lemma_still_backed(&before);
        }
        self.lock_instruction_for(account)
    }
}

} // verus!
