//! Counting over sequences: set flags, sums, and uncovered successors.

use vstd::prelude::*;
use crate::seqs::occurrences;

verus! {

/// How many entries of `s` are true.
pub open spec fn count_true(s: Seq<bool>) -> nat
    decreases s.len(),
{
    if s.len() == 0 {
        0
    } else if s.last() {
        count_true(s.drop_last()) + 1
    } else {
        count_true(s.drop_last())
    }
}

/// The sum of the entries of `s`.
pub open spec fn sum(s: Seq<usize>) -> nat
    decreases s.len(),
{
    if s.len() == 0 {
        0
    } else {
        sum(s.drop_last()) + s.last() as nat
    }
}

/// How many entries of `s` are at least 1.
pub open spec fn count_positive(s: Seq<usize>) -> nat
    decreases s.len(),
{
    if s.len() == 0 {
        0
    } else if s.last() >= 1 {
        count_positive(s.drop_last()) + 1
    } else {
        count_positive(s.drop_last())
    }
}

/// How many of the successors `successors` are nodes that are not covered,
/// each counted as often as it is listed.
pub open spec fn uncovered_count(successors: Seq<u64>, covered: Seq<bool>) -> nat
    decreases successors.len(),
{
    if successors.len() == 0 {
        0
    } else if !covered[successors.last() as int] {
        uncovered_count(successors.drop_last(), covered) + 1
    } else {
        uncovered_count(successors.drop_last(), covered)
    }
}

/// At most as many entries are true as there are, and fewer where one is
/// false. Setting a false entry adds one.
pub proof fn lemma_count_true(s: Seq<bool>, i: int)
    requires
        0 <= i < s.len(),
    ensures
        count_true(s) <= s.len(),
        !s[i] ==> count_true(s) < s.len(),
        !s[i] ==> count_true(s.update(i, true)) == count_true(s) + 1,
    decreases s.len(),
{
    let front = s.drop_last();
    if i < s.len() - 1 {
        lemma_count_true(front, i);
        assert(s.update(i, true).drop_last() =~= front.update(i, true));
    } else {
        lemma_count_true_bound(front);
        assert(s.update(i, true).drop_last() =~= front);
    }
}

/// At most as many entries are true as there are.
pub proof fn lemma_count_true_bound(s: Seq<bool>)
    ensures
        count_true(s) <= s.len(),
    decreases s.len(),
{
    if s.len() > 0 {
        lemma_count_true_bound(s.drop_last());
    }
}

/// No entry of a sequence without true entries is counted.
pub proof fn lemma_count_true_none(s: Seq<bool>)
    requires
        forall|i: int| 0 <= i < s.len() ==> !s[i],
    ensures
        count_true(s) == 0,
    decreases s.len(),
{
    if s.len() > 0 {
        lemma_count_true_none(s.drop_last());
    }
}

/// An entry is at most the sum, and adding one to it adds one to the sum.
pub proof fn lemma_sum(s: Seq<usize>, i: int)
    requires
        0 <= i < s.len(),
        s[i] < usize::MAX,
    ensures
        s[i] <= sum(s),
        sum(s.update(i, (s[i] + 1) as usize)) == sum(s) + 1,
    decreases s.len(),
{
    let front = s.drop_last();
    if i < s.len() - 1 {
        lemma_sum(front, i);
        assert(s.update(i, (s[i] + 1) as usize).drop_last() =~= front.update(i, (s[i] + 1) as usize));
    } else {
        assert(s.update(i, (s[i] + 1) as usize).drop_last() =~= front);
    }
}

/// An entry is at most the sum.
pub proof fn lemma_sum_entry(s: Seq<usize>, i: int)
    requires
        0 <= i < s.len(),
    ensures
        s[i] <= sum(s),
    decreases s.len(),
{
    if i < s.len() - 1 {
        lemma_sum_entry(s.drop_last(), i);
    }
}

/// At most as many entries are positive as the sum is large.
pub proof fn lemma_count_positive_sum(s: Seq<usize>)
    ensures
        count_positive(s) <= sum(s),
    decreases s.len(),
{
    if s.len() > 0 {
        lemma_count_positive_sum(s.drop_last());
    }
}

/// The sum and the number of positive entries of zeros are zero.
pub proof fn lemma_zeros(s: Seq<usize>)
    requires
        forall|i: int| 0 <= i < s.len() ==> s[i] == 0,
    ensures
        sum(s) == 0,
        count_positive(s) == 0,
    decreases s.len(),
{
    if s.len() > 0 {
        lemma_zeros(s.drop_last());
    }
}

/// At most as many entries are positive as there are, and fewer where one is
/// zero. Adding one to a zero entry adds one, to another entry nothing.
pub proof fn lemma_count_positive(s: Seq<usize>, i: int)
    requires
        0 <= i < s.len(),
        s[i] < usize::MAX,
    ensures
        count_positive(s) <= s.len(),
        s[i] == 0 ==> count_positive(s) < s.len(),
        count_positive(s.update(i, (s[i] + 1) as usize)) == count_positive(s) + if s[i] == 0 {
            1nat
        } else {
            0nat
        },
    decreases s.len(),
{
    let front = s.drop_last();
    if i < s.len() - 1 {
        lemma_count_positive(front, i);
        assert(s.update(i, (s[i] + 1) as usize).drop_last() =~= front.update(i, (s[i] + 1) as usize));
    } else {
        lemma_count_positive_bound(front);
        assert(s.update(i, (s[i] + 1) as usize).drop_last() =~= front);
    }
}

/// At most as many entries are positive as there are.
pub proof fn lemma_count_positive_bound(s: Seq<usize>)
    ensures
        count_positive(s) <= s.len(),
    decreases s.len(),
{
    if s.len() > 0 {
        lemma_count_positive_bound(s.drop_last());
    }
}

/// While no node is covered, all successors are uncovered.
pub proof fn lemma_uncovered_count_all(successors: Seq<u64>, covered: Seq<bool>)
    requires
        forall|i: int| 0 <= i < covered.len() ==> !covered[i],
        forall|k: int| 0 <= k < successors.len() ==> successors[k] < covered.len(),
    ensures
        uncovered_count(successors, covered) == successors.len(),
    decreases successors.len(),
{
    if successors.len() > 0 {
        let front = successors.drop_last();
        assert forall|k: int| 0 <= k < front.len() implies front[k] < covered.len() by {
            assert(front[k] == successors[k]);
        }
        lemma_uncovered_count_all(front, covered);
        assert(successors[successors.len() - 1] < covered.len());
    }
}

/// Covering an uncovered node takes it from the uncovered successors as
/// often as it is listed.
pub proof fn lemma_uncovered_count_cover(successors: Seq<u64>, covered: Seq<bool>, v: int)
    requires
        0 <= v < covered.len(),
        covered.len() <= u64::MAX,
        !covered[v],
        forall|k: int| 0 <= k < successors.len() ==> successors[k] < covered.len(),
    ensures
        occurrences(successors, v as u64) <= uncovered_count(successors, covered),
        uncovered_count(successors, covered.update(v, true)) == uncovered_count(successors, covered) - occurrences(
            successors,
            v as u64,
        ),
    decreases successors.len(),
{
    if successors.len() > 0 {
        let front = successors.drop_last();
        assert forall|k: int| 0 <= k < front.len() implies front[k] < covered.len() by {
            assert(front[k] == successors[k]);
        }
        lemma_uncovered_count_cover(front, covered, v);
        assert(successors[successors.len() - 1] < covered.len());
    }
}

/// A value occurs in the first `j + 1` entries once more than in the first
/// `j` where the entry `j` is the value, else as often; and in no prefix
/// more often than in the whole.
pub proof fn lemma_occurrences_prefix(s: Seq<u64>, j: int, x: u64)
    requires
        0 <= j < s.len(),
    ensures
        occurrences(s.take(j + 1), x) == occurrences(s.take(j), x) + if s[j] == x {
            1nat
        } else {
            0nat
        },
        occurrences(s.take(j + 1), x) <= occurrences(s, x),
    decreases s.len() - j,
{
    assert(s.take(j + 1).drop_last() =~= s.take(j));
    if j + 1 < s.len() {
        lemma_occurrences_prefix(s, j + 1, x);
    } else {
        assert(s.take(j + 1) =~= s);
    }
}

} // verus!
