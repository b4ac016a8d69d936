use vstd::prelude::*;
use crate::sums::{sum, non_negative, lemma_sum_insert, lemma_sum_update, lemma_sum_split, lemma_sum_non_negative, lemma_sum_bounds_element};
use crate::types::{Config, StakingError};

verus! {

/// One pending withdrawal: `amount` becomes releasable at `maturity_block`.
#[derive(Clone, Copy, Debug, PartialEq, Eq, Structural)]
pub struct UnstakeEntry {
    pub maturity_block: u64,
    pub amount: u128,
}

/// The pending withdrawals of one account, ordered by maturity block.
#[derive(Debug)]
pub struct UnstakingQueue {
    pub entries: Vec<UnstakeEntry>,
}

/// The amounts of a sequence of entries, in order.
pub open spec fn amounts(s: Seq<UnstakeEntry>) -> Seq<int> {
    Seq::new(s.len(), |i: int| s[i].amount as int)
}

/// The sum of all pending amounts.
pub open spec fn queue_total(s: Seq<UnstakeEntry>) -> int {
    sum(amounts(s))
}

/// Maturity blocks rise strictly from entry to entry, so no block occurs twice.
pub open spec fn strictly_ordered(s: Seq<UnstakeEntry>) -> bool {
    forall|i: int, j: int| 0 <= i < j < s.len() ==> s[i].maturity_block < s[j].maturity_block
}

/// Whether some entry matures at `block`.
pub open spec fn has_entry(s: Seq<UnstakeEntry>, block: u64) -> bool {
    exists|i: int| 0 <= i < s.len() && s[i].maturity_block == block
}

/// The amount pending for `block`; zero where no entry matures then.
pub open spec fn amount_at(s: Seq<UnstakeEntry>, block: u64) -> int {
    if has_entry(s, block) {
        s[choose|i: int| 0 <= i < s.len() && s[i].maturity_block == block].amount as int
    } else {
        0
    }
}

/// Whether the first `p` entries are mature at `now` and the next one is not.
pub open spec fn mature_prefix(s: Seq<UnstakeEntry>, now: u64, p: int) -> bool {
    &&& 0 <= p <= s.len()
    &&& forall|i: int| 0 <= i < p ==> (#[trigger] s[i]).maturity_block <= now
    &&& p < s.len() ==> s[p].maturity_block > now
}

/// The number of leading entries that are mature at `now`.
pub open spec fn mature_count(s: Seq<UnstakeEntry>, now: u64) -> int {
    choose|p: int| mature_prefix(s, now, p)
}

/// What is left of a queue once everything mature at `now` has been released.
pub open spec fn after_release(s: Seq<UnstakeEntry>, now: u64) -> Seq<UnstakeEntry> {
    s.subrange(mature_count(s, now), s.len() as int)
}

/// The sum that a release at `now` hands back.
pub open spec fn mature_total(s: Seq<UnstakeEntry>, now: u64) -> int {
    queue_total(s.subrange(0, mature_count(s, now)))
}

/// Why `enqueue` would reject a request, if it would.
pub open spec fn enqueue_error(
    s: Seq<UnstakeEntry>,
    amount: u128,
    maturity_block: u64,
    capacity: usize,
) -> Option<StakingError> {
    if amount == 0 || queue_total(s) + amount > u128::MAX {
        Some(StakingError::InvalidAmount)
    } else if !has_entry(s, maturity_block) && s.len() >= capacity {
        Some(StakingError::CapacityExceeded)
    } else {
        None
    }
}

pub proof fn lemma_amount_at_index(s: Seq<UnstakeEntry>, i: int)
    requires
        strictly_ordered(s),
        0 <= i < s.len(),
    ensures
        has_entry(s, s[i].maturity_block),
        amount_at(s, s[i].maturity_block) == s[i].amount,
{
    let b = s[i].maturity_block;
    let j = choose|j: int| 0 <= j < s.len() && s[j].maturity_block == b;
    if j < i {
        assert(s[j].maturity_block < s[i].maturity_block);
    } else if i < j {
        assert(s[i].maturity_block < s[j].maturity_block);
    }
}

pub proof fn lemma_mature_count(s: Seq<UnstakeEntry>, now: u64, p: int)
    requires
        mature_prefix(s, now, p),
    ensures
        mature_count(s, now) == p,
{
    let q = mature_count(s, now);
    assert(mature_prefix(s, now, q));
    if q < p {
        assert(s[q].maturity_block <= now);
    } else if p < q {
        assert(s[p].maturity_block <= now);
    }
}

pub proof fn lemma_total_non_negative(s: Seq<UnstakeEntry>)
    ensures
        0 <= queue_total(s),
        non_negative(amounts(s)),
{
    lemma_sum_non_negative(amounts(s));
}

impl UnstakingQueue {
    pub open spec fn view(&self) -> Seq<UnstakeEntry> {
        self.entries@
    }

    /// Ordered without repeated blocks, no empty entry, and a total that fits `u128`.
    pub open spec fn well_formed(&self) -> bool {
        &&& strictly_ordered(self@)
        &&& forall|i: int| 0 <= i < self@.len() ==> (#[trigger] self@[i]).amount > 0
        &&& queue_total(self@) <= u128::MAX
    }

    /// A queue without entries.
    pub fn new() -> (q: UnstakingQueue)
        ensures
            q@ == Seq::<UnstakeEntry>::empty(),
            q.well_formed(),
            queue_total(q@) == 0,
    {
        let q = UnstakingQueue { entries: Vec::new() };
        proof {
            assert(amounts(q@) =~= Seq::<int>::empty());
        }
        q
    }

    /// The number of distinct maturity blocks in the queue.
    pub fn len(&self) -> (n: usize)
        ensures
            n == self@.len(),
    {
        self.entries.len()
    }

    /// The sum of everything pending.
    pub fn total(&self) -> (t: u128)
        requires
            self.well_formed(),
        ensures
            t == queue_total(self@),
    {
        let mut t: u128 = 0;
        let mut i: usize = 0;
        proof {
            assert(amounts(self@.subrange(0, 0)) =~= Seq::<int>::empty());
        }
        while i < self.entries.len()
            invariant
                0 <= i <= self@.len(),
                t == queue_total(self@.subrange(0, i as int)),
                queue_total(self@) <= u128::MAX,
            decreases self@.len() - i,
        {
            proof {
                let s = self@;
                let next = s.subrange(0, i + 1);
                assert(amounts(next).drop_last() =~= amounts(s.subrange(0, i as int)));
                assert(amounts(next).last() == s[i as int].amount);
                assert(amounts(s).subrange(0, i + 1) =~= amounts(next));
                lemma_sum_split(amounts(s), i + 1);
                lemma_total_non_negative(s.subrange(i + 1, s.len() as int));
                assert(amounts(s).subrange(i + 1, s.len() as int) =~= amounts(
                    s.subrange(i + 1, s.len() as int),
                ));
            }
            t = t + self.entries[i].amount;
            i = i + 1;
        }
        proof {
            assert(self@.subrange(0, i as int) =~= self@);
        }
        t
    }

    /// The amount pending for `block`; zero where none is.
    pub fn pending_at(&self, block: u64) -> (a: u128)
        requires
            self.well_formed(),
        ensures
            a == amount_at(self@, block),
    {
        let mut i: usize = 0;
        while i < self.entries.len()
            invariant
                0 <= i <= self@.len(),
                strictly_ordered(self@),
                forall|k: int| 0 <= k < i ==> (#[trigger] self@[k]).maturity_block != block,
            decreases self@.len() - i,
        {
            if self.entries[i].maturity_block == block {
                proof {
                    lemma_amount_at_index(self@, i as int);
                }
                return self.entries[i].amount;
            }
            i = i + 1;
        }
        0
    }

    /// Whether `enqueue` with these arguments would reject the request, and why.
    pub fn check_enqueue(&self, amount: u128, current_block: u64, config: &Config) -> (e: Option<
        StakingError,
    >)
        requires
            self.well_formed(),
            current_block + config.unstaking_delay <= u64::MAX,
        ensures
            e == enqueue_error(
                self@,
                amount,
                (current_block + config.unstaking_delay) as u64,
                config.max_unstake_requests,
            ),
    {
        let maturity: u64 = current_block + config.unstaking_delay;
        if amount == 0 {
            return Some(StakingError::InvalidAmount);
        }
        let total = self.total();
        if amount > u128::MAX - total {
            return Some(StakingError::InvalidAmount);
        }
        let mut i: usize = 0;
        while i < self.entries.len()
            invariant
                0 <= i <= self@.len(),
                amount != 0,
                queue_total(self@) + amount <= u128::MAX,
                maturity == current_block + config.unstaking_delay,
                forall|k: int| 0 <= k < i ==> (#[trigger] self@[k]).maturity_block != maturity,
            decreases self@.len() - i,
        {
            if self.entries[i].maturity_block == maturity {
                assert(has_entry(self@, maturity));
                return None;
            }
            i = i + 1;
        }
        if self.entries.len() >= config.max_unstake_requests {
            Some(StakingError::CapacityExceeded)
        } else {
            None
        }
    }

    /// Adds `amount` to the entry that matures `config.unstaking_delay` blocks
    /// after `current_block`, creating the entry where there is none. Rejects
    /// the request, leaving the queue as it was, where the amount is zero or
    /// the total would leave `u128`, or where a new entry would be needed and
    /// the queue already holds `config.max_unstake_requests` of them.
    pub fn enqueue(&mut self, amount: u128, current_block: u64, config: &Config) -> (r: Result<
        (),
        StakingError,
    >)
        requires
            old(self).well_formed(),
            current_block + config.unstaking_delay <= u64::MAX,
        ensures
            final(self).well_formed(),
            r == match enqueue_error(
                old(self)@,
                amount,
                (current_block + config.unstaking_delay) as u64,
                config.max_unstake_requests,
            ) {
                Some(e) => Err::<(), StakingError>(e),
                None => Ok(()),
            },
            r is Err ==> final(self)@ == old(self)@,
            r is Ok ==> queue_total(final(self)@) == queue_total(old(self)@) + amount,
            r is Ok ==> forall|b: u64|
                #[trigger] amount_at(final(self)@, b) == amount_at(old(self)@, b) + (if b
                    == current_block + config.unstaking_delay {
                    amount as int
                } else {
                    0
                }),
            r is Ok ==> final(self)@.len() == old(self)@.len() + (if has_entry(
                old(self)@,
                (current_block + config.unstaking_delay) as u64,
            ) {
                0int
            } else {
                1int
            }),
            old(self)@.len() <= config.max_unstake_requests ==> final(self)@.len()
                <= config.max_unstake_requests,
    {
        let maturity: u64 = current_block + config.unstaking_delay;
        if amount == 0 {
            return Err(StakingError::InvalidAmount);
        }
        let total = self.total();
        if amount > u128::MAX - total {
            return Err(StakingError::InvalidAmount);
        }
        let mut i: usize = 0;
        while i < self.entries.len() && self.entries[i].maturity_block < maturity
            invariant
                0 <= i <= self@.len(),
                forall|k: int| 0 <= k < i ==> (#[trigger] self@[k]).maturity_block < maturity,
            decreases self@.len() - i,
        {
            i = i + 1;
        }
        let ghost before = self@;
        if i < self.entries.len() && self.entries[i].maturity_block == maturity {
            proof {
                lemma_total_non_negative(before);
                lemma_sum_bounds_element(amounts(before), i as int);
            }
            let merged = UnstakeEntry {
                maturity_block: maturity,
                amount: self.entries[i].amount + amount,
            };
            self.entries.set(i, merged);
            proof {
                let after = self@;
                assert(amounts(after) =~= amounts(before).update(i as int, merged.amount as int));
                lemma_sum_update(amounts(before), i as int, merged.amount as int);
                assert(strictly_ordered(after));
                lemma_amount_at_index(before, i as int);
                assert forall|b: u64|
                    amount_at(after, b) == #[trigger] amount_at(before, b) + (if b == maturity {
                        amount as int
                    } else {
                        0
                    }) by {
                    if has_entry(before, b) {
                        let k = choose|k: int| 0 <= k < before.len() && before[k].maturity_block == b;
                        lemma_amount_at_index(before, k);
                        assert(after[k].maturity_block == b);
                        lemma_amount_at_index(after, k);
                    } else {
                        if has_entry(after, b) {
                            let k = choose|k: int|
                                0 <= k < after.len() && after[k].maturity_block == b;
                            assert(before[k].maturity_block == b);
                        }
                    }
                }
            }
            Ok(())
        } else {
            if self.entries.len() >= config.max_unstake_requests {
                return Err(StakingError::CapacityExceeded);
            }
            let fresh = UnstakeEntry { maturity_block: maturity, amount };
            self.entries.insert(i, fresh);
            proof {
                let after = self@;
                let p = i as int;
                assert(amounts(after) =~= amounts(before).insert(p, amount as int));
                lemma_sum_insert(amounts(before), p, amount as int);
                assert(strictly_ordered(after)) by {
                    assert forall|a: int, c: int| 0 <= a < c < after.len() implies after[a].maturity_block
                        < after[c].maturity_block by {
                        let a0 = if a < p { a } else { a - 1 };
                        let c0 = if c < p { c } else { c - 1 };
                        if a != p && c != p {
                            assert(before[a0].maturity_block < before[c0].maturity_block);
                        } else if a == p {
                            assert(before[c0].maturity_block >= maturity);
                            assert(before[p].maturity_block <= before[c0].maturity_block) by {
                                if p < c0 {
                                    assert(before[p].maturity_block < before[c0].maturity_block);
                                }
                            }
                        } else {
                            assert(before[a0].maturity_block < maturity);
                        }
                    }
                }
                assert(!has_entry(before, maturity)) by {
                    if has_entry(before, maturity) {
                        let k = choose|k: int|
                            0 <= k < before.len() && before[k].maturity_block == maturity;
                        if k > p {
                            assert(before[p].maturity_block < before[k].maturity_block);
                        }
                    }
                }
                assert forall|b: u64|
                    amount_at(after, b) == #[trigger] amount_at(before, b) + (if b == maturity {
                        amount as int
                    } else {
                        0
                    }) by {
                    if b == maturity {
                        lemma_amount_at_index(after, p);
                    } else if has_entry(before, b) {
                        let k = choose|k: int| 0 <= k < before.len() && before[k].maturity_block == b;
                        lemma_amount_at_index(before, k);
                        let k1 = if k < p { k } else { k + 1 };
                        assert(after[k1] == before[k]);
                        lemma_amount_at_index(after, k1);
                    } else {
                        if has_entry(after, b) {
                            let k = choose|k: int|
                                0 <= k < after.len() && after[k].maturity_block == b;
                            let k0 = if k < p { k } else { k - 1 };
                            assert(before[k0].maturity_block == b);
                        }
                    }
                }
                assert forall|k: int| 0 <= k < after.len() implies (#[trigger] after[k]).amount > 0 by {
                    let k0 = if k < p { k } else { k - 1 };
                    if k != p {
                        assert(after[k] == before[k0]);
                    }
                }
            }
            Ok(())
        }
    }

    /// Removes every entry that is mature at `current_block` and returns the
    /// sum of their amounts. Entries that mature later stay as they are.
    pub fn release(&mut self, current_block: u64) -> (released: u128)
        requires
            old(self).well_formed(),
        ensures
            final(self).well_formed(),
            final(self)@ == after_release(old(self)@, current_block),
            released == mature_total(old(self)@, current_block),
            released == queue_total(old(self)@) - queue_total(final(self)@),
            final(self)@.len() <= old(self)@.len(),
            forall|b: u64|
                #[trigger] amount_at(final(self)@, b) == (if b <= current_block {
                    0
                } else {
                    amount_at(old(self)@, b)
                }),
            forall|i: int|
                0 <= i < final(self)@.len() ==> (#[trigger] final(self)@[i]).maturity_block
                    > current_block,
    {
        let ghost before = self@;
        let mut p: usize = 0;
        while p < self.entries.len() && self.entries[p].maturity_block <= current_block
            invariant
                0 <= p <= self@.len(),
                self@ == before,
                forall|k: int| 0 <= k < p ==> (#[trigger] self@[k]).maturity_block <= current_block,
            decreases self@.len() - p,
        {
            p = p + 1;
        }
        let rest = self.entries.split_off(p);
        let ghost head = self@;
        proof {
            assert(amounts(before).subrange(0, p as int) =~= amounts(head));
            lemma_sum_split(amounts(before), p as int);
            assert(amounts(before).subrange(p as int, before.len() as int) =~= amounts(rest@));
            lemma_total_non_negative(head);
            lemma_total_non_negative(rest@);
            assert(strictly_ordered(head));
        }
        let released = self.total();
        self.entries = rest;
        proof {
            let after = self@;
            lemma_mature_count(before, current_block, p as int);
            assert(strictly_ordered(after));
            assert forall|i: int| 0 <= i < after.len() implies (#[trigger] after[i]).maturity_block
                > current_block by {
                if i > 0 {
                    assert(before[p as int].maturity_block < before[p + i].maturity_block);
                }
            }
            assert forall|b: u64|
                #[trigger] amount_at(after, b) == (if b <= current_block {
                    0
                } else {
                    amount_at(before, b)
                }) by {
                if has_entry(after, b) {
                    let k = choose|k: int| 0 <= k < after.len() && after[k].maturity_block == b;
                    lemma_amount_at_index(after, k);
                    assert(before[p + k] == after[k]);
                    lemma_amount_at_index(before, p + k);
                } else if b > current_block && has_entry(before, b) {
                    let k = choose|k: int| 0 <= k < before.len() && before[k].maturity_block == b;
                    assert(k >= p);
                    assert(after[k - p].maturity_block == b);
                }
            }
        }
        released
    }
}

/// Releasing twice at one block leaves what releasing once leaves, and the
/// second release hands back nothing.
pub proof fn lemma_release_idempotent(s: Seq<UnstakeEntry>, now: u64)
    ensures
        after_release(after_release(s, now), now) == after_release(s, now),
        mature_total(after_release(s, now), now) == 0,
{
    lemma_mature_prefix_exists(s, now, 0);
    let p = mature_count(s, now);
    assert(mature_prefix(s, now, p));
    let t = after_release(s, now);
    assert(mature_prefix(t, now, 0));
    lemma_mature_count(t, now, 0);
    assert(t.subrange(0, t.len() as int) =~= t);
    assert(amounts(t.subrange(0, 0)) =~= Seq::<int>::empty());
}

/// Some prefix length separates the leading mature entries from the rest.
pub proof fn lemma_mature_prefix_exists(s: Seq<UnstakeEntry>, now: u64, p: int)
    requires
        0 <= p <= s.len(),
        forall|i: int| 0 <= i < p ==> (#[trigger] s[i]).maturity_block <= now,
    ensures
        exists|q: int| mature_prefix(s, now, q),
    decreases s.len() - p,
{
    if p < s.len() && s[p].maturity_block <= now {
        lemma_mature_prefix_exists(s, now, p + 1);
    } else {
        assert(mature_prefix(s, now, p));
    }
}

} // verus!
