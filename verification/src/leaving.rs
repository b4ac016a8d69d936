use vstd::prelude::*;
use crate::ledger::{has_delegators, Ledger, SelfBond, Delegation, LockInstruction, bond_amounts, delegation_amounts, amounts_by, marks_by, delegated_by, delegation_count, lemma_filtered_bounds};
use crate::sums::{sum, lemma_sum_push, lemma_sum_prefix_step, lemma_sum_zero};
use crate::types::StakingError;

verus! {

/// `s` without the delegations made by `delegator`, the others in order.
pub open spec fn without_delegator(s: Seq<Delegation>, delegator: u64) -> Seq<Delegation>
    decreases s.len(),
{
    if s.len() == 0 {
        Seq::empty()
    } else if s.last().delegator == delegator {
        without_delegator(s.drop_last(), delegator)
    } else {
        without_delegator(s.drop_last(), delegator).push(s.last())
    }
}

/// Whether `delegator` delegates to `candidate` among `s`.
pub open spec fn backs(s: Seq<Delegation>, delegator: u64, candidate: u64) -> bool {
    exists|i: int| 0 <= i < s.len() && s[i].delegator == delegator && s[i].candidate == candidate
}

/// Whether the departure of `delegator` leaves the candidate of `bond`
/// without bond and without delegators.
pub open spec fn left_idle(
    bond: SelfBond,
    before: Seq<Delegation>,
    after: Seq<Delegation>,
    delegator: u64,
) -> bool {
    bond.amount == 0 && backs(before, delegator, bond.owner) && !has_delegators(after, bond.owner)
}

/// The bonds `c` without those that the departure of `delegator` leaves idle.
pub open spec fn without_left_idle(
    c: Seq<SelfBond>,
    before: Seq<Delegation>,
    after: Seq<Delegation>,
    delegator: u64,
) -> Seq<SelfBond>
    decreases c.len(),
{
    if c.len() == 0 {
        Seq::empty()
    } else if left_idle(c.last(), before, after, delegator) {
        without_left_idle(c.drop_last(), before, after, delegator)
    } else {
        without_left_idle(c.drop_last(), before, after, delegator).push(c.last())
    }
}

/// No bond that stays was left idle.
pub proof fn lemma_kept_are_not_idle(
    c: Seq<SelfBond>,
    before: Seq<Delegation>,
    after: Seq<Delegation>,
    delegator: u64,
    x: int,
)
    requires
        0 <= x < without_left_idle(c, before, after, delegator).len(),
    ensures
        !left_idle(without_left_idle(c, before, after, delegator)[x], before, after, delegator),
    decreases c.len(),
{
    if c.len() > 0 {
        let rest = without_left_idle(c.drop_last(), before, after, delegator);
        if x < rest.len() {
            lemma_kept_are_not_idle(c.drop_last(), before, after, delegator, x);
        }
    }
}

/// Whether some delegation in `list` is made to `candidate`.
pub(crate) fn any_delegation_to(list: &Vec<Delegation>, candidate: u64) -> (r: bool)
    ensures
        r == has_delegators(list@, candidate),
{
    let mut i: usize = 0;
    while i < list.len()
        invariant
            0 <= i <= list@.len(),
            forall|k: int| 0 <= k < i ==> list@[k].candidate != candidate,
        decreases list@.len() - i,
    {
        if list[i].candidate == candidate {
            return true;
        }
        i = i + 1;
    }
    false
}

impl Ledger {
    /// Where the bonds of `self` are those of `before` but for some without
    /// an amount, every account has the own stake it had.
    pub proof fn lemma_bond_kept(&self, before: &Ledger, account: u64)
        requires
            before.stakes_consistent(),
            forall|a: int, b: int|
                0 <= a < b < self.candidates@.len() ==> self.candidates@[a].owner
                    != self.candidates@[b].owner,
            forall|j: int|
                0 <= j < before.candidates@.len() && (#[trigger] before.candidates@[j]).amount > 0
                    ==> self.candidates@.contains(before.candidates@[j]),
            forall|a: int|
                0 <= a < self.candidates@.len() ==> exists|j: int|
                    0 <= j < before.candidates@.len() && before.candidates@[j]
                        == #[trigger] self.candidates@[a],
        ensures
            self.self_stake_of(account) == before.self_stake_of(account),
    {
        if self.is_candidate(account) {
            let x = self.candidate_index(account);
            let j = choose|j: int|
                0 <= j < before.candidates@.len() && before.candidates@[j] == self.candidates@[x];
            before.lemma_candidate_at(j);
        } else if before.is_candidate(account) {
            let m = before.candidate_index(account);
            if before.candidates@[m].amount > 0 {
                assert(self.candidates@.contains(before.candidates@[m]));
                let x = choose|x: int|
                    0 <= x < self.candidates@.len() && self.candidates@[x] == before.candidates@[m];
                assert(self.candidates@[x].owner == account);
            }
        }
    }

    /// Why `leave_delegators` would reject a request, if it would.
    pub open spec fn leave_delegators_error(&self, delegator: u64, now: u64) -> Option<StakingError> {
        if delegation_count(self.delegations@, delegator) == 0 {
            Some(StakingError::NotFound)
        } else {
            self.schedule_error(delegator, delegated_by(self.delegations@, delegator) as u128, now)
        }
    }

    /// The delegations that stay when `delegator` leaves.
    pub(crate) fn remaining_delegations(&self, delegator: u64) -> (kept: Vec<Delegation>)
        requires
            self.stakes_consistent(),
        ensures
            kept@ == without_delegator(self.delegations@, delegator),
            forall|a: int, b: int|
                0 <= a < b < kept@.len() ==> !(kept@[a].delegator == kept@[b].delegator
                    && kept@[a].candidate == kept@[b].candidate),
            sum(delegation_amounts(kept@)) + delegated_by(self.delegations@, delegator) == sum(
                delegation_amounts(self.delegations@),
            ),
            delegated_by(kept@, delegator) == 0,
            delegation_count(kept@, delegator) == 0,
            forall|a: int|
                0 <= a < kept@.len() ==> exists|j: int|
                    0 <= j < self.delegations@.len() && self.delegations@[j] == #[trigger] kept@[a],
            forall|j: int|
                0 <= j < self.delegations@.len() && (#[trigger] self.delegations@[j]).delegator
                    != delegator ==> kept@.contains(self.delegations@[j]),
    {
        let mut kept: Vec<Delegation> = Vec::new();
        let mut i: usize = 0;
        let ghost s = self.delegations@;
        proof {
            assert(delegation_amounts(kept@) =~= Seq::<int>::empty());
            assert(amounts_by(s, delegator).subrange(0, 0) =~= Seq::<int>::empty());
            assert(delegation_amounts(s).subrange(0, 0) =~= Seq::<int>::empty());
        }
        while i < self.delegations.len()
            invariant
                0 <= i <= s.len(),
                s == self.delegations@,
                self.stakes_consistent(),
                kept@ == without_delegator(s.subrange(0, i as int), delegator),
                forall|a: int, b: int|
                    0 <= a < b < kept@.len() ==> !(kept@[a].delegator == kept@[b].delegator
                        && kept@[a].candidate == kept@[b].candidate),
                forall|a: int|
                    0 <= a < kept@.len() ==> exists|j: int| 0 <= j < i && s[j] == #[trigger] kept@[a],
                forall|a: int| 0 <= a < kept@.len() ==> (#[trigger] kept@[a]).delegator != delegator,
                sum(delegation_amounts(kept@)) + sum(amounts_by(s, delegator).subrange(0, i as int))
                    == sum(delegation_amounts(s).subrange(0, i as int)),
                forall|j: int|
                    0 <= j < i && (#[trigger] s[j]).delegator != delegator ==> kept@.contains(s[j]),
            decreases s.len() - i,
        {
            let ghost old_kept = kept@;
            proof {
                assert(s.subrange(0, i + 1).drop_last() =~= s.subrange(0, i as int));
                lemma_sum_prefix_step(amounts_by(s, delegator), i as int);
                lemma_sum_prefix_step(delegation_amounts(s), i as int);
            }
            if self.delegations[i].delegator != delegator {
                kept.push(self.delegations[i]);
                proof {
                    assert(delegation_amounts(kept@) =~= delegation_amounts(old_kept).push(
                        s[i as int].amount as int,
                    ));
                    lemma_sum_push(delegation_amounts(old_kept), s[i as int].amount as int);
                    assert forall|j: int|
                        0 <= j < i + 1 && (#[trigger] s[j]).delegator != delegator implies kept@.contains(
                        s[j],
                    ) by {
                        if j == i {
                            assert(kept@[old_kept.len() as int] == s[j]);
                        } else {
                            assert(old_kept.contains(s[j]));
                            let a = choose|a: int| 0 <= a < old_kept.len() && old_kept[a] == s[j];
                            assert(kept@[a] == s[j]);
                        }
                    }
                    assert forall|a: int, b: int| 0 <= a < b < kept@.len() implies !(kept@[a].delegator
                        == kept@[b].delegator && kept@[a].candidate == kept@[b].candidate) by {
                        if b == old_kept.len() {
                            let j = choose|j: int| 0 <= j < i && s[j] == old_kept[a];
                            assert(!(s[j].delegator == s[i as int].delegator && s[j].candidate
                                == s[i as int].candidate));
                        }
                    }
                    assert forall|a: int| 0 <= a < kept@.len() implies exists|j: int|
                        0 <= j < i + 1 && s[j] == #[trigger] kept@[a] by {
                        if a == old_kept.len() {
                            assert(s[i as int] == kept@[a]);
                        } else {
                            let j = choose|j: int| 0 <= j < i && s[j] == old_kept[a];
                            assert(0 <= j < i + 1 && s[j] == kept@[a]);
                        }
                    }
                }
            }
            i = i + 1;
        }
        proof {
            assert(s.subrange(0, i as int) =~= s);
            assert(amounts_by(s, delegator).subrange(0, i as int) =~= amounts_by(s, delegator));
            assert(delegation_amounts(s).subrange(0, i as int) =~= delegation_amounts(s));
            lemma_sum_zero(amounts_by(kept@, delegator));
            lemma_sum_zero(marks_by(kept@, delegator));
        }
        kept
    }

    /// The bonds that stay when `delegator` leaves and `kept` are the
    /// delegations that stay.
    pub(crate) fn remaining_candidates(&self, kept: &Vec<Delegation>, delegator: u64) -> (bonds: Vec<SelfBond>)
        requires
            self.stakes_consistent(),
        ensures
            bonds@ == without_left_idle(self.candidates@, self.delegations@, kept@, delegator),
            forall|a: int, b: int| 0 <= a < b < bonds@.len() ==> bonds@[a].owner != bonds@[b].owner,
            sum(bond_amounts(bonds@)) == sum(bond_amounts(self.candidates@)),
            forall|j: int|
                0 <= j < self.candidates@.len() && !left_idle(
                    #[trigger] self.candidates@[j],
                    self.delegations@,
                    kept@,
                    delegator,
                ) ==> bonds@.contains(self.candidates@[j]),
            forall|a: int|
                0 <= a < bonds@.len() ==> exists|j: int|
                    0 <= j < self.candidates@.len() && self.candidates@[j] == #[trigger] bonds@[a],
    {
        let mut bonds: Vec<SelfBond> = Vec::new();
        let mut i: usize = 0;
        let ghost c = self.candidates@;
        proof {
            assert(bond_amounts(bonds@) =~= Seq::<int>::empty());
            assert(bond_amounts(c).subrange(0, 0) =~= Seq::<int>::empty());
        }
        while i < self.candidates.len()
            invariant
                0 <= i <= c.len(),
                c == self.candidates@,
                self.stakes_consistent(),
                bonds@ == without_left_idle(
                    c.subrange(0, i as int),
                    self.delegations@,
                    kept@,
                    delegator,
                ),
                forall|a: int, b: int| 0 <= a < b < bonds@.len() ==> bonds@[a].owner != bonds@[b].owner,
                forall|a: int|
                    0 <= a < bonds@.len() ==> exists|j: int| 0 <= j < i && c[j] == #[trigger] bonds@[a],
                sum(bond_amounts(bonds@)) == sum(bond_amounts(c).subrange(0, i as int)),
                forall|j: int|
                    0 <= j < i && !left_idle(#[trigger] c[j], self.delegations@, kept@, delegator)
                        ==> bonds@.contains(c[j]),
            decreases c.len() - i,
        {
            let ghost old_bonds = bonds@;
            let bond = self.candidates[i];
            proof {
                assert(c.subrange(0, i + 1).drop_last() =~= c.subrange(0, i as int));
                lemma_sum_prefix_step(bond_amounts(c), i as int);
            }
            let idle = bond.amount == 0 && self.find_delegation(delegator, bond.owner).is_some()
                && !any_delegation_to(kept, bond.owner);
            proof {
                assert(self.has_delegation(delegator, bond.owner) == backs(
                    self.delegations@,
                    delegator,
                    bond.owner,
                ));
                assert(idle == left_idle(bond, self.delegations@, kept@, delegator));
            }
            if !idle {
                bonds.push(bond);
                proof {
                    assert(bond_amounts(bonds@) =~= bond_amounts(old_bonds).push(bond.amount as int));
                    lemma_sum_push(bond_amounts(old_bonds), bond.amount as int);
                    assert forall|j: int|
                        0 <= j < i + 1 && !left_idle(
                            #[trigger] c[j],
                            self.delegations@,
                            kept@,
                            delegator,
                        ) implies bonds@.contains(c[j]) by {
                        if j == i {
                            assert(bonds@[old_bonds.len() as int] == c[j]);
                        } else {
                            assert(old_bonds.contains(c[j]));
                            let a = choose|a: int| 0 <= a < old_bonds.len() && old_bonds[a] == c[j];
                            assert(bonds@[a] == c[j]);
                        }
                    }
                    assert forall|a: int, b: int| 0 <= a < b < bonds@.len() implies bonds@[a].owner
                        != bonds@[b].owner by {
                        if b == old_bonds.len() {
                            let j = choose|j: int| 0 <= j < i && c[j] == old_bonds[a];
                            assert(c[j].owner != c[i as int].owner);
                        }
                    }
                    assert forall|a: int| 0 <= a < bonds@.len() implies exists|j: int|
                        0 <= j < i + 1 && c[j] == #[trigger] bonds@[a] by {
                        if a == old_bonds.len() {
                            assert(c[i as int] == bonds@[a]);
                        } else {
                            let j = choose|j: int| 0 <= j < i && c[j] == old_bonds[a];
                            assert(0 <= j < i + 1 && c[j] == bonds@[a]);
                        }
                    }
                }
            }
            i = i + 1;
        }
        proof {
            assert(c.subrange(0, i as int) =~= c);
            assert(bond_amounts(c).subrange(0, i as int) =~= bond_amounts(c));
        }
        bonds
    }

    /// The ledger is `before` with every delegation of `delegator` moved into its unstaking queue.
    pub open spec fn left(&self, before: &Ledger, delegator: u64, now: u64) -> bool {
        &&& self.delegations@ == without_delegator(
            before.delegations@,
            delegator,
        )
        &&& self.candidates@ == without_left_idle(
            before.candidates@,
            before.delegations@,
            self.delegations@,
            delegator,
        )
        &&& self.config == before.config
        &&& self.total.collators == before.total.collators
        &&& self.total.delegators == before.total.delegators - delegated_by(
            before.delegations@,
            delegator,
        )
        &&& self.scheduled(
            before,
            delegator,
            delegated_by(before.delegations@, delegator) as u128,
            before.maturity(now),
        )
        &&& delegation_count(self.delegations@, delegator) == 0
        &&& self.lock_of(delegator) == before.lock_of(delegator)
    }

    /// Removes every delegation of `delegator` in one step: their sum leaves
    /// the delegators' aggregate and enters the delegator's unstaking queue
    /// as one request. Candidates that this leaves without bond and without
    /// delegators are dropped.
    pub fn leave_delegators(&mut self, delegator: u64, now: u64) -> (r: Result<
        LockInstruction,
        StakingError,
    >)
        requires
            old(self).well_formed(),
            now + old(self).config.unstaking_delay <= u64::MAX,
        ensures
            final(self).well_formed(),
            match r {
                Err(e) => old(self).leave_delegators_error(delegator, now) == Some(e) && *final(self)
                    == *old(self),
                Ok(instruction) => {
                    &&& old(self).leave_delegators_error(delegator, now) is None
                    &&& final(self).left(old(self), delegator, now)
                    &&& instruction == final(self).lock_instruction(delegator)
                },
            },
    {
        if self.count_delegations(delegator) == 0 {
            return Err(StakingError::NotFound);
        }
        let held = self.delegator_total(delegator);
        match self.check_schedule(delegator, held, now) {
            Some(e) => {
                return Err(e);
            },
            None => {},
        }
        let ghost before = *self;
        let kept = self.remaining_delegations(delegator);
        let bonds = self.remaining_candidates(&kept, delegator);
        proof {
            lemma_filtered_bounds(before.delegations@, delegator);
        }
        self.delegations = kept;
        self.candidates = bonds;
        self.total.delegators = self.total.delegators - held;
        let ghost emptied = *self;
        proof {
            emptied.lemma_same_lookups(&before);
            assert forall|a: int| 0 <= a < emptied.delegations@.len() implies emptied.is_candidate(
                (#[trigger] emptied.delegations@[a]).candidate,
            ) by {
                let e = emptied.delegations@[a];
                let j = choose|j: int|
                    0 <= j < before.delegations@.len() && before.delegations@[j] == e;
                assert(before.is_candidate(before.delegations@[j].candidate));
                let m = before.candidate_index(e.candidate);
                assert(has_delegators(emptied.delegations@, before.candidates@[m].owner));
                assert(!left_idle(
                    before.candidates@[m],
                    before.delegations@,
                    emptied.delegations@,
                    delegator,
                ));
                assert(emptied.candidates@.contains(before.candidates@[m]));
                let x = choose|x: int|
                    0 <= x < emptied.candidates@.len() && emptied.candidates@[x]
                        == before.candidates@[m];
                assert(emptied.candidates@[x].owner == e.candidate);
            }
        }
        proof {
            emptied.lemma_bond_kept(&before, delegator);
            assert forall|x: int| 0 <= x < emptied.candidates@.len() implies (
            #[trigger] emptied.candidates@[x]).amount > 0 || emptied.has_delegators(
                emptied.candidates@[x].owner,
            ) by {
                let bond = emptied.candidates@[x];
                let j = choose|j: int|
                    0 <= j < before.candidates@.len() && before.candidates@[j] == bond;
                if bond.amount == 0 {
                    assert(before.candidates@[j].amount == 0);
                    assert(before.has_delegators(bond.owner));
                    let i = choose|i: int|
                        0 <= i < before.delegations@.len() && before.delegations@[i].candidate
                            == bond.owner;
                    let e = before.delegations@[i];
                    if e.delegator == delegator {
                        assert(backs(before.delegations@, delegator, bond.owner));
                        lemma_kept_are_not_idle(
                            before.candidates@,
                            before.delegations@,
                            emptied.delegations@,
                            delegator,
                            x,
                        );
                        assert(has_delegators(emptied.delegations@, bond.owner));
                        let a = choose|a: int|
                            0 <= a < emptied.delegations@.len() && emptied.delegations@[a].candidate
                                == bond.owner;
                        assert(emptied.has_delegators(bond.owner));
                    } else {
                        assert(emptied.delegations@.contains(e));
                        let a = choose|a: int|
                            0 <= a < emptied.delegations@.len() && emptied.delegations@[a] == e;
                        assert(emptied.delegations@[a].candidate == bond.owner);
                    }
                }
            }
        }
        self.schedule(delegator, held, now);
        proof {
            self.lemma_same_lookups(&emptied);
            assert forall|other: u64| other != delegator implies #[trigger] self.unstaking_of(other)
                == before.unstaking_of(other) by {
                assert(self.unstaking_of(other) == emptied.unstaking_of(other));
            }
        }
        Ok(self.lock_instruction_for(delegator))
    }
}

} // verus!
