use vstd::prelude::*;
use crate::ledger::{Ledger, CollatorInfo, CollatorCandidate, DelegatorState, Delegation, bond_amounts, delegated_to, delegated_by, delegation_count, lemma_filtered_bounds};
use crate::sums::{lemma_sum_bounds_element, lemma_sum_non_negative};
use crate::unstaking::UnstakeEntry;

verus! {

/// The order of the collator list: more stake first, and among equal stakes
/// the smaller identifier first.
pub open spec fn ranks_before(a: CollatorInfo, b: CollatorInfo) -> bool {
    a.amount > b.amount || (a.amount == b.amount && a.owner < b.owner)
}

/// The delegations of `delegator` among `s`, in order.
pub open spec fn delegations_of(s: Seq<Delegation>, delegator: u64) -> Seq<Delegation>
    decreases s.len(),
{
    if s.len() == 0 {
        Seq::empty()
    } else if s.last().delegator == delegator {
        delegations_of(s.drop_last(), delegator).push(s.last())
    } else {
        delegations_of(s.drop_last(), delegator)
    }
}

impl Ledger {
    /// The line of the collator list for the candidate at index `k`.
    pub open spec fn info_of(&self, k: int) -> CollatorInfo {
        CollatorInfo {
            owner: self.candidates@[k].owner,
            amount: (self.candidates@[k].amount + delegated_to(
                self.delegations@,
                self.candidates@[k].owner,
            )) as u128,
        }
    }

    /// Whether `x` is the line of one of the first `n` candidates.
    pub open spec fn among_first(&self, n: int, x: CollatorInfo) -> bool {
        exists|k: int| 0 <= k < n && self.info_of(k) == x
    }

    /// Whether `list` is the collator list: one line for each candidate and
    /// no other, in ranking order.
    pub open spec fn is_collator_list(&self, list: Seq<CollatorInfo>) -> bool {
        &&& list.len() == self.candidates@.len()
        &&& forall|i: int, j: int| 0 <= i < j < list.len() ==> ranks_before(list[i], list[j])
        &&& forall|i: int|
            0 <= i < list.len() ==> self.among_first(
                self.candidates@.len() as int,
                #[trigger] list[i],
            )
        &&& forall|k: int|
            0 <= k < self.candidates@.len() ==> list.contains(#[trigger] self.info_of(k))
    }

    /// The line of the collator list for the candidate at index `k`.
    pub fn candidate_info(&self, k: usize) -> (info: CollatorInfo)
        requires
            self.well_formed(),
            k < self.candidates@.len(),
        ensures
            info == self.info_of(k as int),
    {
        let owner = self.candidates[k].owner;
        let delegated = self.delegated_stake(owner);
        proof {
            lemma_filtered_bounds(self.delegations@, owner);
            lemma_sum_non_negative(bond_amounts(self.candidates@));
            lemma_sum_bounds_element(bond_amounts(self.candidates@), k as int);
        }
        CollatorInfo { owner, amount: self.candidates[k].amount + delegated }
    }

    /// Every candidate with its total stake, the largest total first and
    /// equal totals by ascending identifier.
    pub fn get_collator_list(&self) -> (list: Vec<CollatorInfo>)
        requires
            self.well_formed(),
        ensures
            self.is_collator_list(list@),
    {
        let mut list: Vec<CollatorInfo> = Vec::new();
        let mut n: usize = 0;
        while n < self.candidates.len()
            invariant
                0 <= n <= self.candidates@.len(),
                self.well_formed(),
                list@.len() == n,
                forall|i: int, j: int| 0 <= i < j < list@.len() ==> ranks_before(list@[i], list@[j]),
                forall|i: int| 0 <= i < list@.len() ==> self.among_first(n as int, #[trigger] list@[i]),
                forall|k: int| 0 <= k < n ==> list@.contains(#[trigger] self.info_of(k)),
            decreases self.candidates@.len() - n,
        {
            let x = self.candidate_info(n);
            let mut p: usize = 0;
            while p < list.len() && (list[p].amount > x.amount || (list[p].amount == x.amount
                && list[p].owner < x.owner))
                invariant
                    0 <= p <= list@.len(),
                    forall|i: int| 0 <= i < p ==> ranks_before(list@[i], x),
                decreases list@.len() - p,
            {
                p = p + 1;
            }
            let ghost before = list@;
            list.insert(p, x);
            proof {
                let after = list@;
                if p < before.len() {
                    assert(self.among_first(n as int, before[p as int]));
                    let k = choose|k: int| 0 <= k < n && self.info_of(k) == before[p as int];
                    assert(self.candidates@[k].owner != self.candidates@[n as int].owner);
                    assert(ranks_before(x, before[p as int]));
                }
                assert forall|i: int, j: int| 0 <= i < j < after.len() implies ranks_before(
                    after[i],
                    after[j],
                ) by {
                    let i0 = if i < p { i } else { i - 1 };
                    let j0 = if j < p { j } else { j - 1 };
                    if i != p && j != p {
                        assert(ranks_before(before[i0], before[j0]));
                    } else if i == p {
                        if j0 > p {
                            assert(ranks_before(before[p as int], before[j0]));
                        }
                    }
                }
                assert forall|i: int| 0 <= i < after.len() implies self.among_first(
                    n + 1,
                    #[trigger] after[i],
                ) by {
                    if i == p {
                        assert(self.info_of(n as int) == x);
                    } else {
                        let i0 = if i < p { i } else { i - 1 };
                        assert(self.among_first(n as int, before[i0]));
                        let k = choose|k: int| 0 <= k < n && self.info_of(k) == before[i0];
                        assert(0 <= k < n + 1 && self.info_of(k) == after[i]);
                    }
                }
                assert forall|k: int| 0 <= k < n + 1 implies after.contains(
                    #[trigger] self.info_of(k),
                ) by {
                    if k == n {
                        assert(after[p as int] == x);
                    } else {
                        assert(before.contains(self.info_of(k)));
                        let i = choose|i: int| 0 <= i < before.len() && before[i] == self.info_of(k);
                        let i1 = if i < p { i } else { i + 1 };
                        assert(after[i1] == self.info_of(k));
                    }
                }
            }
            n = n + 1;
        }
        list
    }

    /// The candidate `account` as readers see it, if it is one.
    pub fn candidate(&self, account: u64) -> (r: Option<CollatorCandidate>)
        requires
            self.well_formed(),
        ensures
            r is Some <==> self.is_candidate(account),
            r is Some ==> r->0 == (CollatorCandidate {
                owner: account,
                self_stake: self.self_stake_of(account) as u128,
                delegated_stake: delegated_to(self.delegations@, account) as u128,
            }),
            r is Some ==> r->0.spec_total() == self.self_stake_of(account) + delegated_to(
                self.delegations@,
                account,
            ) && r->0.spec_total() <= u128::MAX,
    {
        proof {
            lemma_filtered_bounds(self.delegations@, account);
            lemma_sum_non_negative(bond_amounts(self.candidates@));
            if self.is_candidate(account) {
                lemma_sum_bounds_element(
                    bond_amounts(self.candidates@),
                    self.candidate_index(account),
                );
            }
        }
        match self.find_candidate(account) {
            Some(k) => Some(
                CollatorCandidate {
                    owner: account,
                    self_stake: self.candidates[k].amount,
                    delegated_stake: self.delegated_stake(account),
                },
            ),
            None => None,
        }
    }

    /// The delegations of `delegator` and their sum; `None` where it holds none.
    pub fn delegator_state(&self, delegator: u64) -> (r: Option<DelegatorState>)
        requires
            self.well_formed(),
        ensures
            r is Some <==> delegation_count(self.delegations@, delegator) > 0,
            r is Some ==> r->0.owner == delegator && r->0.delegations@ == delegations_of(
                self.delegations@,
                delegator,
            ) && r->0.total == delegated_by(self.delegations@, delegator),
    {
        let mut held: Vec<Delegation> = Vec::new();
        let mut i: usize = 0;
        while i < self.delegations.len()
            invariant
                0 <= i <= self.delegations@.len(),
                held@ == delegations_of(self.delegations@.subrange(0, i as int), delegator),
            decreases self.delegations@.len() - i,
        {
            proof {
                assert(self.delegations@.subrange(0, i + 1).drop_last() =~= self.delegations@.subrange(
                    0,
                    i as int,
                ));
            }
            if self.delegations[i].delegator == delegator {
                held.push(self.delegations[i]);
            }
            i = i + 1;
        }
        proof {
            assert(self.delegations@.subrange(0, i as int) =~= self.delegations@);
        }
        let count = self.count_delegations(delegator);
        if count == 0 {
            None
        } else {
            Some(DelegatorState { owner: delegator, delegations: held, total: self.delegator_total(delegator) })
        }
    }

    /// The unstaking queue of `account`, oldest maturity first; empty where it has none.
    pub fn unstaking(&self, account: u64) -> (entries: Vec<UnstakeEntry>)
        requires
            self.well_formed(),
        ensures
            entries@ == self.unstaking_of(account),
    {
        let mut entries: Vec<UnstakeEntry> = Vec::new();
        match self.find_account(account) {
            Some(k) => {
                let mut i: usize = 0;
                while i < self.accounts[k].unstaking.entries.len()
                    invariant
                        k < self.accounts@.len(),
                        0 <= i <= self.accounts@[k as int].unstaking@.len(),
                        entries@ == self.accounts@[k as int].unstaking@.subrange(0, i as int),
                    decreases self.accounts@[k as int].unstaking@.len() - i,
                {
                    entries.push(self.accounts[k].unstaking.entries[i]);
                    proof {
                        assert(entries@ =~= self.accounts@[k as int].unstaking@.subrange(0, i + 1));
                    }
                    i = i + 1;
                }
                proof {
                    assert(entries@ =~= self.accounts@[k as int].unstaking@);
                }
            },
            None => {},
        }
        entries
    }
}

} // verus!
