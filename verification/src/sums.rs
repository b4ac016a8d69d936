use vstd::prelude::*;

verus! {

/// The sum of a sequence of integers.
pub open spec fn sum(s: Seq<int>) -> int
    decreases s.len(),
{
    if s.len() == 0 {
        0
    } else {
        sum(s.drop_last()) + s.last()
    }
}

/// Every element is at least zero.
pub open spec fn non_negative(s: Seq<int>) -> bool {
    forall|i: int| 0 <= i < s.len() ==> 0 <= #[trigger] s[i]
}

pub proof fn lemma_sum_concat(a: Seq<int>, b: Seq<int>)
    ensures
        sum(a + b) == sum(a) + sum(b),
    decreases b.len(),
{
    if b.len() == 0 {
        assert(a + b =~= a);
    } else {
        assert((a + b).drop_last() =~= a + b.drop_last());
        lemma_sum_concat(a, b.drop_last());
    }
}

pub proof fn lemma_sum_push(s: Seq<int>, v: int)
    ensures
        sum(s.push(v)) == sum(s) + v,
{
    assert(s.push(v).drop_last() =~= s);
}

pub proof fn lemma_sum_insert(s: Seq<int>, i: int, v: int)
    requires
        0 <= i <= s.len(),
    ensures
        sum(s.insert(i, v)) == sum(s) + v,
{
    let a = s.subrange(0, i);
    let b = s.subrange(i, s.len() as int);
    assert(s =~= a + b);
    assert(s.insert(i, v) =~= a.push(v) + b);
    lemma_sum_concat(a, b);
    lemma_sum_concat(a.push(v), b);
    lemma_sum_push(a, v);
}

pub proof fn lemma_sum_remove(s: Seq<int>, i: int)
    requires
        0 <= i < s.len(),
    ensures
        sum(s.remove(i)) == sum(s) - s[i],
{
    let r = s.remove(i);
    assert(r.insert(i, s[i]) =~= s);
    lemma_sum_insert(r, i, s[i]);
}

pub proof fn lemma_sum_update(s: Seq<int>, i: int, v: int)
    requires
        0 <= i < s.len(),
    ensures
        sum(s.update(i, v)) == sum(s) - s[i] + v,
{
    assert(s.update(i, v).remove(i) =~= s.remove(i));
    lemma_sum_remove(s, i);
    lemma_sum_remove(s.update(i, v), i);
}

pub proof fn lemma_sum_split(s: Seq<int>, p: int)
    requires
        0 <= p <= s.len(),
    ensures
        sum(s) == sum(s.subrange(0, p)) + sum(s.subrange(p, s.len() as int)),
{
    assert(s =~= s.subrange(0, p) + s.subrange(p, s.len() as int));
    lemma_sum_concat(s.subrange(0, p), s.subrange(p, s.len() as int));
}

pub proof fn lemma_sum_non_negative(s: Seq<int>)
    requires
        non_negative(s),
    ensures
        0 <= sum(s),
    decreases s.len(),
{
    if s.len() > 0 {
        lemma_sum_non_negative(s.drop_last());
    }
}

/// In a sequence without negative elements no element exceeds the sum.
pub proof fn lemma_sum_bounds_element(s: Seq<int>, i: int)
    requires
        non_negative(s),
        0 <= i < s.len(),
    ensures
        s[i] <= sum(s),
{
    lemma_sum_remove(s, i);
    lemma_sum_non_negative(s.remove(i));
}

/// Without negative elements, a prefix sums to no more than the whole.
pub proof fn lemma_sum_prefix_le(s: Seq<int>, p: int)
    requires
        non_negative(s),
        0 <= p <= s.len(),
    ensures
        0 <= sum(s.subrange(0, p)) <= sum(s),
{
    lemma_sum_split(s, p);
    lemma_sum_non_negative(s.subrange(0, p));
    lemma_sum_non_negative(s.subrange(p, s.len() as int));
}

/// Extending a prefix by one element adds that element to its sum.
pub proof fn lemma_sum_prefix_step(s: Seq<int>, p: int)
    requires
        0 <= p < s.len(),
    ensures
        sum(s.subrange(0, p + 1)) == sum(s.subrange(0, p)) + s[p],
{
    assert(s.subrange(0, p + 1).drop_last() =~= s.subrange(0, p));
}

/// A sequence that is nowhere larger than another sums to no more.
pub proof fn lemma_sum_le(a: Seq<int>, b: Seq<int>)
    requires
        a.len() == b.len(),
        forall|i: int| 0 <= i < a.len() ==> a[i] <= b[i],
    ensures
        sum(a) <= sum(b),
    decreases a.len(),
{
    if a.len() > 0 {
        lemma_sum_le(a.drop_last(), b.drop_last());
    }
}

/// A sequence of zeros sums to zero.
pub proof fn lemma_sum_zero(s: Seq<int>)
    requires
        forall|i: int| 0 <= i < s.len() ==> s[i] == 0,
    ensures
        sum(s) == 0,
    decreases s.len(),
{
    if s.len() > 0 {
        lemma_sum_zero(s.drop_last());
    }
}

} // verus!
