//! Counting helpers over sequences of optional values, used as termination
//! measures by the flood fill and the pathfinder.

use vstd::prelude::*;

verus! {

/// Number of `None` entries in a sequence of optional values.
pub open spec fn none_count<T>(s: Seq<Option<T>>) -> int
    decreases s.len(),
{
    if s.len() == 0 {
        0
    } else {
        none_count(s.drop_last()) + if s.last() is None {
            1int
        } else {
            0int
        }
    }
}

/// The count of `None` entries is between zero and the length.
pub proof fn lemma_none_count_bounds<T>(s: Seq<Option<T>>)
    ensures
        0 <= none_count(s) <= s.len(),
    decreases s.len(),
{
    if s.len() > 0 {
        lemma_none_count_bounds(s.drop_last());
    }
}

/// Filling one `None` entry with a value lowers the count by one.
pub proof fn lemma_none_count_fill<T>(s: Seq<Option<T>>, i: int, v: T)
    requires
        0 <= i < s.len(),
        s[i] is None,
    ensures
        none_count(s.update(i, Some(v))) == none_count(s) - 1,
    decreases s.len(),
{
    let t = s.update(i, Some(v));
    if i == s.len() - 1 {
        assert(t.drop_last() =~= s.drop_last());
    } else {
        assert(t.drop_last() =~= s.drop_last().update(i, Some(v)));
        lemma_none_count_fill(s.drop_last(), i, v);
    }
}

/// Replacing one `Some` entry with another keeps the count unchanged.
pub proof fn lemma_none_count_replace<T>(s: Seq<Option<T>>, i: int, v: T)
    requires
        0 <= i < s.len(),
        s[i] is Some,
    ensures
        none_count(s.update(i, Some(v))) == none_count(s),
    decreases s.len(),
{
    let t = s.update(i, Some(v));
    if i == s.len() - 1 {
        assert(t.drop_last() =~= s.drop_last());
    } else {
        assert(t.drop_last() =~= s.drop_last().update(i, Some(v)));
        lemma_none_count_replace(s.drop_last(), i, v);
    }
}

/// The weight of one optional cost entry: an unset entry counts as the
/// largest possible value, above every settable cost.
pub open spec fn cost_weight(v: Option<u64>) -> int {
    match v {
        None => 0x1_0000_0000_0000_0000,
        Some(d) => d as int,
    }
}

/// Total weight of a sequence of optional costs.
pub open spec fn cost_measure(s: Seq<Option<u64>>) -> int
    decreases s.len(),
{
    if s.len() == 0 {
        0
    } else {
        cost_measure(s.drop_last()) + cost_weight(s.last())
    }
}

/// The total weight is never negative.
pub proof fn lemma_cost_measure_nonneg(s: Seq<Option<u64>>)
    ensures
        cost_measure(s) >= 0,
    decreases s.len(),
{
    if s.len() > 0 {
        lemma_cost_measure_nonneg(s.drop_last());
    }
}

/// Updating one entry shifts the total weight by the weight difference.
pub proof fn lemma_cost_measure_update(s: Seq<Option<u64>>, i: int, v: Option<u64>)
    requires
        0 <= i < s.len(),
    ensures
        cost_measure(s.update(i, v)) == cost_measure(s) - cost_weight(s[i]) + cost_weight(v),
    decreases s.len(),
{
    let t = s.update(i, v);
    if i == s.len() - 1 {
        assert(t.drop_last() =~= s.drop_last());
    } else {
        assert(t.drop_last() =~= s.drop_last().update(i, v));
        lemma_cost_measure_update(s.drop_last(), i, v);
    }
}

} // verus!
