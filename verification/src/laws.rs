use vstd::prelude::*;
use crate::ledger::{Ledger, LockInstruction, SelfBond, Delegation, bond_amounts, delegation_amounts, pending_amounts, amounts_to, delegated_to, lemma_filtered_bounds, lemma_pending_non_negative};
use crate::sums::{sum, lemma_sum_bounds_element, lemma_sum_non_negative, lemma_sum_push, lemma_sum_update, lemma_sum_zero};
use crate::unstaking::{UnstakeEntry, queue_total, strictly_ordered, amounts};

verus! {

/// What is delegated to each of the candidates `c`, in their order.
pub open spec fn delegated_stakes(c: Seq<SelfBond>, s: Seq<Delegation>) -> Seq<int> {
    Seq::new(c.len(), |k: int| delegated_to(s, c[k].owner))
}

/// Where no owner has two bonds and every delegation names one of the
/// owners, the candidates' delegated stakes add up to the sum of all delegations.
pub proof fn lemma_delegated_stakes_sum(c: Seq<SelfBond>, s: Seq<Delegation>)
    requires
        forall|i: int, j: int| 0 <= i < j < c.len() ==> c[i].owner != c[j].owner,
        forall|i: int|
            0 <= i < s.len() ==> exists|k: int|
                0 <= k < c.len() && c[k].owner == (#[trigger] s[i]).candidate,
    ensures
        sum(delegated_stakes(c, s)) == sum(delegation_amounts(s)),
    decreases s.len(),
{
    if s.len() == 0 {
        assert forall|k: int| 0 <= k < c.len() implies delegated_stakes(c, s)[k] == 0 by {
            assert(amounts_to(s, c[k].owner) =~= Seq::<int>::empty());
        }
        lemma_sum_zero(delegated_stakes(c, s));
        assert(delegation_amounts(s) =~= Seq::<int>::empty());
    } else {
        let rest = s.drop_last();
        let e = s.last();
        assert forall|i: int| 0 <= i < rest.len() implies exists|k: int|
            0 <= k < c.len() && c[k].owner == (#[trigger] rest[i]).candidate by {
            assert(rest[i] == s[i]);
        }
        lemma_delegated_stakes_sum(c, rest);
        let m = choose|k: int| 0 <= k < c.len() && c[k].owner == e.candidate;
        assert forall|k: int| 0 <= k < c.len() implies delegated_to(s, c[k].owner) == delegated_to(
            rest,
            c[k].owner,
        ) + (if k == m {
            e.amount as int
        } else {
            0
        }) by {
            let extra: int = if c[k].owner == e.candidate {
                e.amount as int
            } else {
                0
            };
            assert(amounts_to(s, c[k].owner) =~= amounts_to(rest, c[k].owner).push(extra));
            lemma_sum_push(amounts_to(rest, c[k].owner), extra);
            if k < m {
                assert(c[k].owner != c[m].owner);
            } else if m < k {
                assert(c[m].owner != c[k].owner);
            }
        }
        let earlier = delegated_stakes(c, rest);
        assert(delegated_stakes(c, s) =~= earlier.update(m, earlier[m] + e.amount));
        lemma_sum_update(earlier, m, earlier[m] + e.amount);
        assert(delegation_amounts(s) =~= delegation_amounts(rest).push(e.amount as int));
        lemma_sum_push(delegation_amounts(rest), e.amount as int);
    }
}

/// In every well-formed ledger the collators' aggregate is the sum of the
/// candidates' own stakes, and the delegators' aggregate is the sum of the
/// candidates' delegated stakes, which is the sum of all delegations.
pub proof fn lemma_aggregate_is_sum(ledger: &Ledger)
    requires
        ledger.well_formed(),
    ensures
        ledger.total.collators == sum(bond_amounts(ledger.candidates@)),
        ledger.total.delegators == sum(delegated_stakes(ledger.candidates@, ledger.delegations@)),
        ledger.total.delegators == sum(delegation_amounts(ledger.delegations@)),
{
    assert forall|i: int| 0 <= i < ledger.delegations@.len() implies exists|k: int|
        0 <= k < ledger.candidates@.len() && ledger.candidates@[k].owner == (
        #[trigger] ledger.delegations@[i]).candidate by {
        assert(ledger.is_candidate(ledger.delegations@[i].candidate));
    }
    lemma_delegated_stakes_sum(ledger.candidates@, ledger.delegations@);
}

/// For every account the lock that the ledger asks for is its active stake
/// plus everything in its unstaking queue, and it fits `u128`; the lock is
/// removed exactly where both are zero.
pub proof fn lemma_lock_is_stake_plus_queue(ledger: &Ledger, account: u64)
    requires
        ledger.well_formed(),
    ensures
        0 <= ledger.lock_of(account) <= ledger.grand_total() <= u128::MAX,
        match ledger.lock_instruction(account) {
            LockInstruction::SetLock { account: a, amount } => a == account && amount > 0 && amount
                == ledger.active_stake_of(account) + queue_total(ledger.unstaking_of(account)),
            LockInstruction::RemoveLock { account: a } => a == account && ledger.active_stake_of(
                account,
            ) == 0 && queue_total(ledger.unstaking_of(account)) == 0,
        },
{
    lemma_filtered_bounds(ledger.delegations@, account);
    lemma_sum_non_negative(bond_amounts(ledger.candidates@));
    lemma_pending_non_negative(ledger.accounts@);
    if ledger.is_candidate(account) {
        lemma_sum_bounds_element(bond_amounts(ledger.candidates@), ledger.candidate_index(account));
    }
    if ledger.has_account(account) {
        lemma_sum_bounds_element(pending_amounts(ledger.accounts@), ledger.account_index(account));
    } else {
        assert(amounts(Seq::<UnstakeEntry>::empty()) =~= Seq::<int>::empty());
    }
}

/// The unstaking queue of every account holds at most
/// `max_unstake_requests` entries, and no two of them for the same block.
pub proof fn lemma_queues_merged_and_bounded(ledger: &Ledger, account: u64)
    requires
        ledger.well_formed(),
    ensures
        ledger.unstaking_of(account).len() <= ledger.config.max_unstake_requests,
        strictly_ordered(ledger.unstaking_of(account)),
        forall|i: int, j: int|
            0 <= i < ledger.unstaking_of(account).len() && 0 <= j < ledger.unstaking_of(account).len()
                && i != j ==> ledger.unstaking_of(account)[i].maturity_block != ledger.unstaking_of(
                account,
            )[j].maturity_block,
{
    let q = ledger.unstaking_of(account);
    assert forall|i: int, j: int| 0 <= i < q.len() && 0 <= j < q.len() && i != j implies q[i].maturity_block
        != q[j].maturity_block by {
        if i < j {
            assert(q[i].maturity_block < q[j].maturity_block);
        } else {
            assert(q[j].maturity_block < q[i].maturity_block);
        }
    }
}

/// No candidate stands in a well-formed ledger without stake: its own bond
/// and what is delegated to it are never both zero.
pub proof fn lemma_candidates_hold_stake(ledger: &Ledger, k: int)
    requires
        ledger.well_formed(),
        0 <= k < ledger.candidates@.len(),
    ensures
        ledger.candidates@[k].amount + delegated_to(
            ledger.delegations@,
            ledger.candidates@[k].owner,
        ) > 0,
{
    let s = ledger.delegations@;
    let owner = ledger.candidates@[k].owner;
    lemma_filtered_bounds(s, owner);
    if ledger.candidates@[k].amount == 0 {
        assert(ledger.has_delegators(owner));
        let i = choose|i: int| 0 <= i < s.len() && s[i].candidate == owner;
        assert(s[i].amount > 0);
        lemma_sum_bounds_element(amounts_to(s, owner), i);
    }
}

} // verus!
