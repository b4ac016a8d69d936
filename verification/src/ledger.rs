use vstd::prelude::*;
use crate::sums::{sum, non_negative, lemma_sum_prefix_le, lemma_sum_prefix_step, lemma_sum_le, lemma_sum_bounds_element, lemma_sum_non_negative};
use crate::types::{Config, TotalStake};
use crate::unstaking::{UnstakeEntry, UnstakingQueue, queue_total, lemma_total_non_negative};

verus! {

/// The bond that a candidate holds on itself.
#[derive(Clone, Copy, Debug, PartialEq, Eq, Structural)]
pub struct SelfBond {
    pub owner: u64,
    pub amount: u128,
}

/// One delegation: `delegator` backs `candidate` with `amount`.
#[derive(Clone, Copy, Debug, PartialEq, Eq, Structural)]
pub struct Delegation {
    pub delegator: u64,
    pub candidate: u64,
    pub amount: u128,
}

/// The unstaking queue of one account. A record exists only while the queue
/// holds an entry.
#[derive(Debug)]
pub struct StakeAccount {
    pub owner: u64,
    pub unstaking: UnstakingQueue,
}

/// A candidate as readers see it: its own bond and what others delegated to it.
#[derive(Clone, Copy, Debug, PartialEq, Eq, Structural)]
pub struct CollatorCandidate {
    pub owner: u64,
    pub self_stake: u128,
    pub delegated_stake: u128,
}

impl CollatorCandidate {
    /// Own and delegated stake together.
    pub open spec fn spec_total(&self) -> int {
        self.self_stake + self.delegated_stake
    }

    /// Own and delegated stake together: the stake by which candidates are ranked.
    pub fn total(&self) -> (t: u128)
        requires
            self.spec_total() <= u128::MAX,
        ensures
            t == self.spec_total(),
    {
        self.self_stake + self.delegated_stake
    }
}

/// A delegator as readers see it: its delegations and their sum.
#[derive(Debug)]
pub struct DelegatorState {
    pub owner: u64,
    pub delegations: Vec<Delegation>,
    pub total: u128,
}

/// One line of the collator list: a candidate and its total stake.
#[derive(Clone, Copy, Debug, PartialEq, Eq, Structural)]
pub struct CollatorInfo {
    pub owner: u64,
    pub amount: u128,
}

/// What the balance lock manager has to do for an account after an operation.
#[derive(Clone, Copy, Debug, PartialEq, Eq, Structural)]
pub enum LockInstruction {
    /// Set the staking lock of `account` to `amount`.
    SetLock { account: u64, amount: u128 },
    /// Remove the staking lock of `account`: nothing is staked or pending.
    RemoveLock { account: u64 },
}

/// The stake ledger: candidates, delegations, unstaking queues and the
/// running aggregates over them.
#[derive(Debug)]
pub struct Ledger {
    pub config: Config,
    pub candidates: Vec<SelfBond>,
    pub delegations: Vec<Delegation>,
    pub accounts: Vec<StakeAccount>,
    pub total: TotalStake,
    /// Sum of everything that waits in an unstaking queue.
    pub pending: u128,
}

/// The candidates' own bonds, in order.
pub open spec fn bond_amounts(s: Seq<SelfBond>) -> Seq<int> {
    Seq::new(s.len(), |i: int| s[i].amount as int)
}

/// The delegated amounts, in order.
pub open spec fn delegation_amounts(s: Seq<Delegation>) -> Seq<int> {
    Seq::new(s.len(), |i: int| s[i].amount as int)
}

/// The delegated amounts with everything not delegated by `delegator` set to zero.
pub open spec fn amounts_by(s: Seq<Delegation>, delegator: u64) -> Seq<int> {
    Seq::new(s.len(), |i: int| if s[i].delegator == delegator { s[i].amount as int } else { 0 })
}

/// The delegated amounts with everything not delegated to `candidate` set to zero.
pub open spec fn amounts_to(s: Seq<Delegation>, candidate: u64) -> Seq<int> {
    Seq::new(s.len(), |i: int| if s[i].candidate == candidate { s[i].amount as int } else { 0 })
}

/// One for each delegation made by `delegator`, zero for the others.
pub open spec fn marks_by(s: Seq<Delegation>, delegator: u64) -> Seq<int> {
    Seq::new(s.len(), |i: int| if s[i].delegator == delegator { 1int } else { 0 })
}

/// The total of each account's unstaking queue, in order.
pub open spec fn pending_amounts(s: Seq<StakeAccount>) -> Seq<int> {
    Seq::new(s.len(), |i: int| queue_total(s[i].unstaking@))
}

/// Whether some delegation in `s` is made to `candidate`.
pub open spec fn has_delegators(s: Seq<Delegation>, candidate: u64) -> bool {
    exists|i: int| 0 <= i < s.len() && s[i].candidate == candidate
}

/// The sum of every delegation made by `delegator`.
pub open spec fn delegated_by(s: Seq<Delegation>, delegator: u64) -> int {
    sum(amounts_by(s, delegator))
}

/// The sum of every delegation made to `candidate`.
pub open spec fn delegated_to(s: Seq<Delegation>, candidate: u64) -> int {
    sum(amounts_to(s, candidate))
}

/// The number of delegations made by `delegator`.
pub open spec fn delegation_count(s: Seq<Delegation>, delegator: u64) -> int {
    sum(marks_by(s, delegator))
}

pub proof fn lemma_filtered_bounds(s: Seq<Delegation>, account: u64)
    ensures
        0 <= delegated_by(s, account) <= sum(delegation_amounts(s)),
        0 <= delegated_to(s, account) <= sum(delegation_amounts(s)),
        0 <= delegation_count(s, account) <= s.len(),
        non_negative(delegation_amounts(s)),
        non_negative(amounts_by(s, account)),
        non_negative(amounts_to(s, account)),
        non_negative(marks_by(s, account)),
{
    lemma_sum_le(amounts_by(s, account), delegation_amounts(s));
    lemma_sum_le(amounts_to(s, account), delegation_amounts(s));
    lemma_sum_non_negative(amounts_by(s, account));
    lemma_sum_non_negative(amounts_to(s, account));
    lemma_sum_non_negative(marks_by(s, account));
    lemma_count_bound(s, account);
}

pub proof fn lemma_count_bound(s: Seq<Delegation>, account: u64)
    ensures
        delegation_count(s, account) <= s.len(),
    decreases s.len(),
{
    if s.len() > 0 {
        assert(marks_by(s, account).drop_last() =~= marks_by(s.drop_last(), account));
        lemma_count_bound(s.drop_last(), account);
    }
}

impl Ledger {
    /// Whether `account` is a candidate.
    pub open spec fn is_candidate(&self, account: u64) -> bool {
        exists|i: int| 0 <= i < self.candidates@.len() && self.candidates@[i].owner == account
    }

    /// Where the bond of candidate `account` stands.
    pub open spec fn candidate_index(&self, account: u64) -> int {
        choose|i: int| 0 <= i < self.candidates@.len() && self.candidates@[i].owner == account
    }

    /// The own bond of `account`; zero where it is no candidate.
    pub open spec fn self_stake_of(&self, account: u64) -> int {
        if self.is_candidate(account) {
            self.candidates@[self.candidate_index(account)].amount as int
        } else {
            0
        }
    }

    /// Whether `delegator` delegates to `candidate`.
    pub open spec fn has_delegation(&self, delegator: u64, candidate: u64) -> bool {
        exists|i: int|
            0 <= i < self.delegations@.len() && self.delegations@[i].delegator == delegator
                && self.delegations@[i].candidate == candidate
    }

    /// Where the delegation of `delegator` to `candidate` stands.
    pub open spec fn delegation_index(&self, delegator: u64, candidate: u64) -> int {
        choose|i: int|
            0 <= i < self.delegations@.len() && self.delegations@[i].delegator == delegator
                && self.delegations@[i].candidate == candidate
    }

    /// What `delegator` has delegated to `candidate`; zero where nothing.
    pub open spec fn delegation_of(&self, delegator: u64, candidate: u64) -> int {
        if self.has_delegation(delegator, candidate) {
            self.delegations@[self.delegation_index(delegator, candidate)].amount as int
        } else {
            0
        }
    }

    /// Whether `account` has an unstaking queue.
    pub open spec fn has_account(&self, account: u64) -> bool {
        exists|i: int| 0 <= i < self.accounts@.len() && self.accounts@[i].owner == account
    }

    /// Where the unstaking queue of `account` stands.
    pub open spec fn account_index(&self, account: u64) -> int {
        choose|i: int| 0 <= i < self.accounts@.len() && self.accounts@[i].owner == account
    }

    /// The unstaking queue of `account`; empty where it has none.
    pub open spec fn unstaking_of(&self, account: u64) -> Seq<UnstakeEntry> {
        if self.has_account(account) {
            self.accounts@[self.account_index(account)].unstaking@
        } else {
            Seq::empty()
        }
    }

    /// The stake that `account` has at work: its own bond and its delegations.
    pub open spec fn active_stake_of(&self, account: u64) -> int {
        self.self_stake_of(account) + delegated_by(self.delegations@, account)
    }

    /// What has to be locked for `account`: its active stake and everything
    /// in its unstaking queue.
    pub open spec fn lock_of(&self, account: u64) -> int {
        self.active_stake_of(account) + queue_total(self.unstaking_of(account))
    }

    /// The instruction that brings the lock of `account` to `lock_of`.
    pub open spec fn lock_instruction(&self, account: u64) -> LockInstruction {
        if self.lock_of(account) == 0 {
            LockInstruction::RemoveLock { account }
        } else {
            LockInstruction::SetLock { account, amount: self.lock_of(account) as u128 }
        }
    }

    /// Everything the ledger accounts for: staked and pending.
    pub open spec fn grand_total(&self) -> int {
        self.total.collators + self.total.delegators + self.pending
    }

    /// No owner has two bonds and no pair two delegations; the stake
    /// aggregate holds the sum of the bonds and the sum of the delegations.
    pub open spec fn stakes_consistent(&self) -> bool {
        &&& forall|i: int, j: int|
            0 <= i < j < self.candidates@.len() ==> self.candidates@[i].owner
                != self.candidates@[j].owner
        &&& forall|i: int, j: int|
            0 <= i < j < self.delegations@.len() ==> !(self.delegations@[i].delegator
                == self.delegations@[j].delegator && self.delegations@[i].candidate
                == self.delegations@[j].candidate)
        &&& self.total.collators == sum(bond_amounts(self.candidates@))
        &&& self.total.delegators == sum(delegation_amounts(self.delegations@))
    }

    /// No account has two queues.
    pub open spec fn distinct_accounts(&self) -> bool {
        forall|i: int, j: int|
            0 <= i < j < self.accounts@.len() ==> self.accounts@[i].owner
                != self.accounts@[j].owner
    }

    /// No account has two queues; every queue is well formed, not empty and
    /// within capacity; `pending` is the sum of all of them.
    pub open spec fn queues_consistent(&self) -> bool {
        &&& self.distinct_accounts()
        &&& forall|i: int|
            0 <= i < self.accounts@.len() ==> {
                &&& (#[trigger] self.accounts@[i]).unstaking.well_formed()
                &&& 1 <= self.accounts@[i].unstaking@.len() <= self.config.max_unstake_requests
            }
        &&& self.pending == sum(pending_amounts(self.accounts@))
    }

    /// Every delegation is made to a candidate.
    pub open spec fn delegations_backed(&self) -> bool {
        forall|i: int|
            0 <= i < self.delegations@.len() ==> self.is_candidate(
                (#[trigger] self.delegations@[i]).candidate,
            )
    }

    /// No delegation is empty.
    pub open spec fn delegations_positive(&self) -> bool {
        forall|i: int|
            0 <= i < self.delegations@.len() ==> (#[trigger] self.delegations@[i]).amount > 0
    }

    /// Whether some delegation is made to `candidate`.
    pub open spec fn has_delegators(&self, candidate: u64) -> bool {
        has_delegators(self.delegations@, candidate)
    }

    /// Every candidate has a bond or a delegator.
    pub open spec fn candidates_engaged(&self) -> bool {
        forall|k: int|
            0 <= k < self.candidates@.len() ==> (#[trigger] self.candidates@[k]).amount > 0
                || self.has_delegators(self.candidates@[k].owner)
    }

    /// Every candidate but `account` has a bond or a delegator.
    pub open spec fn engaged_but(&self, account: u64) -> bool {
        forall|k: int|
            0 <= k < self.candidates@.len() && (#[trigger] self.candidates@[k]).owner != account
                ==> self.candidates@[k].amount > 0 || self.has_delegators(self.candidates@[k].owner)
    }

    /// The invariant of the ledger: stakes and queues are consistent, every
    /// delegation names a candidate and holds an amount, every candidate has
    /// a bond or a delegator, and everything accounted for fits `u128`.
    pub open spec fn well_formed(&self) -> bool {
        &&& self.stakes_consistent()
        &&& self.delegations_backed()
        &&& self.delegations_positive()
        &&& self.candidates_engaged()
        &&& self.queues_consistent()
        &&& self.grand_total() <= u128::MAX
    }

    /// A ledger without candidates, delegations or pending withdrawals.
    pub fn new(config: Config) -> (ledger: Ledger)
        ensures
            ledger.well_formed(),
            ledger.config == config,
            ledger.candidates@.len() == 0,
            ledger.delegations@.len() == 0,
            ledger.accounts@.len() == 0,
            ledger.total == (TotalStake { collators: 0, delegators: 0 }),
            ledger.pending == 0,
    {
        let ledger = Ledger {
            config,
            candidates: Vec::new(),
            delegations: Vec::new(),
            accounts: Vec::new(),
            total: TotalStake { collators: 0, delegators: 0 },
            pending: 0,
        };
        proof {
            assert(bond_amounts(ledger.candidates@) =~= Seq::<int>::empty());
            assert(delegation_amounts(ledger.delegations@) =~= Seq::<int>::empty());
            assert(pending_amounts(ledger.accounts@) =~= Seq::<int>::empty());
        }
        ledger
    }

    /// The network-wide aggregate.
    pub fn total_collator_stake(&self) -> (t: TotalStake)
        ensures
            t == self.total,
    {
        self.total
    }

    /// The index of the bond of `account`, if it is a candidate.
    pub fn find_candidate(&self, account: u64) -> (r: Option<usize>)
        requires
            self.stakes_consistent(),
        ensures
            r is Some <==> self.is_candidate(account),
            r is Some ==> r->0 == self.candidate_index(account) && r->0 < self.candidates@.len()
                && self.candidates@[r->0 as int].owner == account,
    {
        let mut i: usize = 0;
        while i < self.candidates.len()
            invariant
                0 <= i <= self.candidates@.len(),
                self.stakes_consistent(),
                forall|k: int| 0 <= k < i ==> self.candidates@[k].owner != account,
            decreases self.candidates@.len() - i,
        {
            if self.candidates[i].owner == account {
                proof {
                    let j = self.candidate_index(account);
                    assert(j == i) by {
                        if j < i {
                            assert(self.candidates@[j].owner != account);
                        }
                    }
                }
                return Some(i);
            }
            i = i + 1;
        }
        None
    }

    /// The index of the delegation of `delegator` to `candidate`, if there is one.
    pub fn find_delegation(&self, delegator: u64, candidate: u64) -> (r: Option<usize>)
        requires
            self.stakes_consistent(),
        ensures
            r is Some <==> self.has_delegation(delegator, candidate),
            r is Some ==> r->0 == self.delegation_index(delegator, candidate) && r->0
                < self.delegations@.len() && self.delegations@[r->0 as int].delegator == delegator
                && self.delegations@[r->0 as int].candidate == candidate,
    {
        let mut i: usize = 0;
        while i < self.delegations.len()
            invariant
                0 <= i <= self.delegations@.len(),
                self.stakes_consistent(),
                forall|k: int|
                    0 <= k < i ==> !(self.delegations@[k].delegator == delegator
                        && self.delegations@[k].candidate == candidate),
            decreases self.delegations@.len() - i,
        {
            if self.delegations[i].delegator == delegator && self.delegations[i].candidate
                == candidate {
                proof {
                    let j = self.delegation_index(delegator, candidate);
                    assert(j == i) by {
                        if j < i {
                            assert(!(self.delegations@[j].delegator == delegator
                                && self.delegations@[j].candidate == candidate));
                        }
                    }
                }
                return Some(i);
            }
            i = i + 1;
        }
        None
    }

    /// The index of the unstaking queue of `account`, if it has one.
    pub fn find_account(&self, account: u64) -> (r: Option<usize>)
        requires
            self.queues_consistent(),
        ensures
            r is Some <==> self.has_account(account),
            r is Some ==> r->0 == self.account_index(account) && r->0 < self.accounts@.len()
                && self.accounts@[r->0 as int].owner == account,
    {
        let mut i: usize = 0;
        while i < self.accounts.len()
            invariant
                0 <= i <= self.accounts@.len(),
                self.queues_consistent(),
                forall|k: int| 0 <= k < i ==> self.accounts@[k].owner != account,
            decreases self.accounts@.len() - i,
        {
            if self.accounts[i].owner == account {
                proof {
                    let j = self.account_index(account);
                    assert(j == i) by {
                        if j < i {
                            assert(self.accounts@[j].owner != account);
                        }
                    }
                }
                return Some(i);
            }
            i = i + 1;
        }
        None
    }

    /// The sum of the delegations that `delegator` holds.
    pub fn delegator_total(&self, delegator: u64) -> (t: u128)
        requires
            self.well_formed(),
        ensures
            t == delegated_by(self.delegations@, delegator),
    {
        let mut t: u128 = 0;
        let mut i: usize = 0;
        while i < self.delegations.len()
            invariant
                0 <= i <= self.delegations@.len(),
                self.well_formed(),
                t == sum(amounts_by(self.delegations@, delegator).subrange(0, i as int)),
            decreases self.delegations@.len() - i,
        {
            proof {
                let a = amounts_by(self.delegations@, delegator);
                lemma_filtered_bounds(self.delegations@, delegator);
                lemma_sum_prefix_step(a, i as int);
                lemma_sum_prefix_le(a, i + 1);
            }
            if self.delegations[i].delegator == delegator {
                t = t + self.delegations[i].amount;
            }
            i = i + 1;
        }
        proof {
            let a = amounts_by(self.delegations@, delegator);
            assert(a.subrange(0, i as int) =~= a);
        }
        t
    }

    /// The sum of the delegations made to `candidate`.
    pub fn delegated_stake(&self, candidate: u64) -> (t: u128)
        requires
            self.well_formed(),
        ensures
            t == delegated_to(self.delegations@, candidate),
    {
        let mut t: u128 = 0;
        let mut i: usize = 0;
        while i < self.delegations.len()
            invariant
                0 <= i <= self.delegations@.len(),
                self.well_formed(),
                t == sum(amounts_to(self.delegations@, candidate).subrange(0, i as int)),
            decreases self.delegations@.len() - i,
        {
            proof {
                let a = amounts_to(self.delegations@, candidate);
                lemma_filtered_bounds(self.delegations@, candidate);
                lemma_sum_prefix_step(a, i as int);
                lemma_sum_prefix_le(a, i + 1);
            }
            if self.delegations[i].candidate == candidate {
                t = t + self.delegations[i].amount;
            }
            i = i + 1;
        }
        proof {
            let a = amounts_to(self.delegations@, candidate);
            assert(a.subrange(0, i as int) =~= a);
        }
        t
    }

    /// The number of delegations that `delegator` holds.
    pub fn count_delegations(&self, delegator: u64) -> (n: usize)
        requires
            self.well_formed(),
        ensures
            n == delegation_count(self.delegations@, delegator),
    {
        let mut n: usize = 0;
        let mut i: usize = 0;
        while i < self.delegations.len()
            invariant
                0 <= i <= self.delegations@.len(),
                n <= i,
                n == sum(marks_by(self.delegations@, delegator).subrange(0, i as int)),
            decreases self.delegations@.len() - i,
        {
            proof {
                lemma_sum_prefix_step(marks_by(self.delegations@, delegator), i as int);
            }
            if self.delegations[i].delegator == delegator {
                n = n + 1;
            }
            i = i + 1;
        }
        proof {
            let a = marks_by(self.delegations@, delegator);
            assert(a.subrange(0, i as int) =~= a);
        }
        n
    }

    /// What has to be locked for `account`.
    pub fn lock_amount(&self, account: u64) -> (t: u128)
        requires
            self.well_formed(),
        ensures
            t == self.lock_of(account),
    {
        let own: u128 = match self.find_candidate(account) {
            Some(i) => self.candidates[i].amount,
            None => 0,
        };
        let delegated = self.delegator_total(account);
        let waiting: u128 = match self.find_account(account) {
            Some(i) => self.accounts[i].unstaking.total(),
            None => 0,
        };
        proof {
            lemma_filtered_bounds(self.delegations@, account);
            lemma_sum_non_negative(bond_amounts(self.candidates@));
            lemma_pending_non_negative(self.accounts@);
            if self.is_candidate(account) {
                lemma_sum_bounds_element(
                    bond_amounts(self.candidates@),
                    self.candidate_index(account),
                );
            }
            if self.has_account(account) {
                lemma_sum_bounds_element(pending_amounts(self.accounts@), self.account_index(account));
            } else {
                assert(crate::unstaking::amounts(Seq::<UnstakeEntry>::empty()) =~= Seq::<int>::empty());
            }
        }
        own + delegated + waiting
    }

    /// The instruction that brings the lock of `account` to what the ledger holds for it.
    pub fn lock_instruction_for(&self, account: u64) -> (instruction: LockInstruction)
        requires
            self.well_formed(),
        ensures
            instruction == self.lock_instruction(account),
    {
        let amount = self.lock_amount(account);
        if amount == 0 {
            LockInstruction::RemoveLock { account }
        } else {
            LockInstruction::SetLock { account, amount }
        }
    }
}

impl Ledger {
    /// The bond at index `i` is what a lookup of its owner finds.
    pub proof fn lemma_candidate_at(&self, i: int)
        requires
            self.stakes_consistent(),
            0 <= i < self.candidates@.len(),
        ensures
            self.is_candidate(self.candidates@[i].owner),
            self.candidate_index(self.candidates@[i].owner) == i,
            self.self_stake_of(self.candidates@[i].owner) == self.candidates@[i].amount,
    {
        let j = self.candidate_index(self.candidates@[i].owner);
        if j < i {
            assert(self.candidates@[j].owner != self.candidates@[i].owner);
        } else if i < j {
            assert(self.candidates@[i].owner != self.candidates@[j].owner);
        }
    }

    /// The queue at index `i` is what a lookup of its owner finds.
    pub proof fn lemma_account_at(&self, i: int)
        requires
            self.distinct_accounts(),
            0 <= i < self.accounts@.len(),
        ensures
            self.has_account(self.accounts@[i].owner),
            self.account_index(self.accounts@[i].owner) == i,
            self.unstaking_of(self.accounts@[i].owner) == self.accounts@[i].unstaking@,
    {
        let j = self.account_index(self.accounts@[i].owner);
        if j < i {
            assert(self.accounts@[j].owner != self.accounts@[i].owner);
        } else if i < j {
            assert(self.accounts@[i].owner != self.accounts@[j].owner);
        }
    }

    /// Replacing the queue at index `i` leaves the queues of all other owners.
    pub proof fn lemma_queue_replaced(&self, before: &Ledger, i: int)
        requires
            before.distinct_accounts(),
            0 <= i < before.accounts@.len(),
            self.accounts@.len() == before.accounts@.len(),
            self.accounts@[i].owner == before.accounts@[i].owner,
            forall|j: int|
                0 <= j < before.accounts@.len() && j != i ==> self.accounts@[j]
                    == before.accounts@[j],
        ensures
            self.distinct_accounts(),
            self.unstaking_of(before.accounts@[i].owner) == self.accounts@[i].unstaking@,
            forall|other: u64|
                other != before.accounts@[i].owner ==> #[trigger] self.unstaking_of(other)
                    == before.unstaking_of(other),
    {
        assert(self.distinct_accounts()) by {
            assert forall|a: int, b: int| 0 <= a < b < self.accounts@.len() implies self.accounts@[a].owner
                != self.accounts@[b].owner by {
                assert(before.accounts@[a].owner != before.accounts@[b].owner);
            }
        }
        self.lemma_account_at(i);
        assert forall|other: u64| other != before.accounts@[i].owner implies #[trigger] self.unstaking_of(
            other,
        ) == before.unstaking_of(other) by {
            if before.has_account(other) {
                let j = before.account_index(other);
                before.lemma_account_at(j);
                assert(self.accounts@[j].owner == other);
                self.lemma_account_at(j);
            } else if self.has_account(other) {
                let j = self.account_index(other);
                assert(before.accounts@[j].owner == other);
            }
        }
    }

    /// Removing the queue at index `i` leaves the queues of all other owners.
    pub proof fn lemma_queue_removed(&self, before: &Ledger, i: int)
        requires
            before.distinct_accounts(),
            0 <= i < before.accounts@.len(),
            self.accounts@ == before.accounts@.remove(i),
        ensures
            self.distinct_accounts(),
            !self.has_account(before.accounts@[i].owner),
            forall|other: u64|
                other != before.accounts@[i].owner ==> #[trigger] self.unstaking_of(other)
                    == before.unstaking_of(other),
    {
        assert(self.distinct_accounts()) by {
            assert forall|a: int, b: int| 0 <= a < b < self.accounts@.len() implies self.accounts@[a].owner
                != self.accounts@[b].owner by {
                let a0 = if a < i { a } else { a + 1 };
                let b0 = if b < i { b } else { b + 1 };
                assert(before.accounts@[a0].owner != before.accounts@[b0].owner);
            }
        }
        let owner = before.accounts@[i].owner;
        if self.has_account(owner) {
            let j = self.account_index(owner);
            let j0 = if j < i { j } else { j + 1 };
            assert(before.accounts@[j0].owner == owner);
            if j0 < i {
                assert(before.accounts@[j0].owner != before.accounts@[i].owner);
            } else {
                assert(before.accounts@[i].owner != before.accounts@[j0].owner);
            }
        }
        assert forall|other: u64| other != owner implies #[trigger] self.unstaking_of(other)
            == before.unstaking_of(other) by {
            if before.has_account(other) {
                let j = before.account_index(other);
                before.lemma_account_at(j);
                let j1 = if j < i { j } else { j - 1 };
                assert(self.accounts@[j1] == before.accounts@[j]);
                self.lemma_account_at(j1);
            } else if self.has_account(other) {
                let j = self.account_index(other);
                let j0 = if j < i { j } else { j + 1 };
                assert(before.accounts@[j0].owner == other);
            }
        }
    }

    /// Candidates stay candidates where every old bond keeps its owner and
    /// its place, so delegations stay backed.
    pub proof fn lemma_still_backed(&self, before: &Ledger)
        requires
            before.delegations_backed(),
            self.delegations@ == before.delegations@,
            self.candidates@.len() >= before.candidates@.len(),
            forall|j: int|
                0 <= j < before.candidates@.len() ==> self.candidates@[j].owner
                    == before.candidates@[j].owner,
        ensures
            self.delegations_backed(),
    {
        assert forall|i: int| 0 <= i < self.delegations@.len() implies self.is_candidate(
            (#[trigger] self.delegations@[i]).candidate,
        ) by {
            let c = before.delegations@[i].candidate;
            assert(before.is_candidate(c));
            let j = before.candidate_index(c);
            assert(self.candidates@[j].owner == c);
        }
    }

    /// Candidates that had a delegator keep one where every old delegation
    /// has a successor to the same candidate.
    pub proof fn lemma_still_engaged(&self, before: &Ledger, account: u64)
        requires
            self.candidates@ == before.candidates@,
            forall|i: int|
                0 <= i < before.delegations@.len() && (#[trigger] before.delegations@[i]).candidate
                    != account ==> self.has_delegators(before.delegations@[i].candidate),
        ensures
            before.engaged_but(account) ==> self.engaged_but(account),
            before.candidates_engaged() ==> self.engaged_but(account),
    {
        if before.engaged_but(account) || before.candidates_engaged() {
            assert forall|k: int|
                0 <= k < self.candidates@.len() && (#[trigger] self.candidates@[k]).owner
                    != account implies self.candidates@[k].amount > 0 || self.has_delegators(
                self.candidates@[k].owner,
            ) by {
                let owner = before.candidates@[k].owner;
                if before.candidates@[k].amount == 0 {
                    assert(before.has_delegators(owner));
                    let i = choose|i: int|
                        0 <= i < before.delegations@.len() && before.delegations@[i].candidate
                            == owner;
                    assert(self.has_delegators(before.delegations@[i].candidate));
                }
            }
        }
    }

    /// Ledgers with the same bonds and delegations are engaged alike.
    pub proof fn lemma_same_engagement(&self, before: &Ledger)
        requires
            self.candidates@ == before.candidates@,
            self.delegations@ == before.delegations@,
        ensures
            forall|a: u64| #[trigger] self.engaged_but(a) == before.engaged_but(a),
            self.candidates_engaged() == before.candidates_engaged(),
            forall|a: u64| #[trigger] self.has_delegators(a) == before.has_delegators(a),
    {
    }

    /// Ledgers with the same queues answer every lookup of a queue alike,
    /// and ledgers with the same bonds every lookup of a bond.
    pub proof fn lemma_same_lookups(&self, before: &Ledger)
        ensures
            self.accounts@ == before.accounts@ ==> forall|a: u64| #[trigger]
                self.unstaking_of(a) == before.unstaking_of(a),
            self.candidates@ == before.candidates@ ==> forall|a: u64| #[trigger]
                self.self_stake_of(a) == before.self_stake_of(a) && self.is_candidate(a)
                    == before.is_candidate(a) && self.candidate_index(a) == before.candidate_index(a),
    {
    }
}

pub proof fn lemma_pending_non_negative(s: Seq<StakeAccount>)
    ensures
        non_negative(pending_amounts(s)),
        0 <= sum(pending_amounts(s)),
{
    assert forall|i: int| 0 <= i < s.len() implies 0 <= #[trigger] pending_amounts(s)[i] by {
        lemma_total_non_negative(s[i].unstaking@);
    }
    lemma_sum_non_negative(pending_amounts(s));
}

} // verus!
