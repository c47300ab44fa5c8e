//! Removal of repeats from sequences.

use vstd::prelude::*;
use std::collections::HashSet;

verus! {

broadcast use vstd::std_specs::hash::group_hash_axioms;

/// The sequence `s` with every element that equals its left neighbour removed.
/// Elements that repeat further apart are all kept.
pub open spec fn dedup_adjacent<T>(s: Seq<T>) -> Seq<T>
    decreases s.len(),
{
    if s.len() <= 1 {
        s
    } else if s[s.len() - 2] == s[s.len() - 1] {
        dedup_adjacent(s.drop_last())
    } else {
        dedup_adjacent(s.drop_last()).push(s.last())
    }
}

/// No element of `s` equals its left neighbour.
pub open spec fn no_adjacent_repeat<T>(s: Seq<T>) -> bool {
    forall|i: int| 0 < i < s.len() ==> s[i - 1] != #[trigger] s[i]
}

/// Removing consecutive repeats keeps the ends of a sequence, never makes it
/// longer, and leaves no consecutive repeat behind.
pub proof fn lemma_dedup_shape<T>(s: Seq<T>)
    ensures
        dedup_adjacent(s).len() <= s.len(),
        s.len() > 0 ==> dedup_adjacent(s).len() > 0,
        s.len() > 0 ==> dedup_adjacent(s).first() == s.first(),
        s.len() > 0 ==> dedup_adjacent(s).last() == s.last(),
        no_adjacent_repeat(dedup_adjacent(s)),
    decreases s.len(),
{
    if s.len() > 1 {
        lemma_dedup_shape(s.drop_last());
    }
}

/// Removing consecutive repeats keeps exactly the values that occur.
pub proof fn lemma_dedup_contains<T>(s: Seq<T>, x: T)
    ensures
        dedup_adjacent(s).contains(x) <==> s.contains(x),
    decreases s.len(),
{
    if s.len() > 1 {
        let t = s.drop_last();
        lemma_dedup_contains(t, x);
        lemma_dedup_shape(t);
        let d = dedup_adjacent(t);
        if s.contains(x) {
            let i = choose|i: int| 0 <= i < s.len() && s[i] == x;
            if i < s.len() - 1 {
                assert(t[i] == x);
            } else if s[s.len() - 2] == s[s.len() - 1] {
                assert(t[s.len() - 2] == x);
            } else {
                assert(d.push(s.last())[d.len() as int] == x);
            }
            if d.contains(x) {
                let j = choose|j: int| 0 <= j < d.len() && d[j] == x;
                assert(d.push(s.last())[j] == x);
            }
        }
        if dedup_adjacent(s).contains(x) {
            let r = dedup_adjacent(s);
            let j = choose|j: int| 0 <= j < r.len() && r[j] == x;
            if s[s.len() - 2] != s[s.len() - 1] && j == d.len() {
                assert(s[s.len() - 1] == x);
            } else {
                assert(d[j] == x);
                assert(d.contains(x));
                let i = choose|i: int| 0 <= i < t.len() && t[i] == x;
                assert(s[i] == x);
            }
        }
    }
}

/// A sequence without consecutive repeats is left as it is.
pub proof fn lemma_dedup_fixed<T>(s: Seq<T>)
    requires
        no_adjacent_repeat(s),
    ensures
        dedup_adjacent(s) == s,
    decreases s.len(),
{
    if s.len() > 1 {
        let t = s.drop_last();
        assert(no_adjacent_repeat(t)) by {
            assert forall|i: int| 0 < i < t.len() implies t[i - 1] != #[trigger] t[i] by {
                assert(s[i - 1] != s[i]);
            }
        }
        lemma_dedup_fixed(t);
        assert(s[s.len() - 2] != s[s.len() - 1]);
        assert(t.push(s.last()) =~= s);
    }
}

/// Removing repeats from a prefix first does not change what removing them
/// from the whole gives.
pub proof fn lemma_dedup_append<T>(a: Seq<T>, b: Seq<T>)
    ensures
        dedup_adjacent(dedup_adjacent(a) + b) == dedup_adjacent(a + b),
    decreases b.len(),
{
    if b.len() == 0 {
        assert(dedup_adjacent(a) + b =~= dedup_adjacent(a));
        assert(a + b =~= a);
        lemma_dedup_shape(a);
        lemma_dedup_fixed(dedup_adjacent(a));
    } else {
        let b0 = b.drop_last();
        let da = dedup_adjacent(a);
        lemma_dedup_append(a, b0);
        lemma_dedup_shape(a);
        let l = da + b;
        let r = a + b;
        assert(l.drop_last() =~= da + b0);
        assert(r.drop_last() =~= a + b0);
        assert(l.last() == r.last());
        if r.len() > 1 {
            // the element before the last one is the same on both sides
            if b.len() > 1 {
                assert(l[l.len() - 2] == b[b.len() - 2]);
                assert(r[r.len() - 2] == b[b.len() - 2]);
            } else {
                assert(a.len() > 0);
                assert(l[l.len() - 2] == da.last());
                assert(r[r.len() - 2] == a.last());
            }
            assert(l.len() > 1);
        } else {
            assert(a.len() == 0);
            assert(l.len() == 1);
        }
    }
}

/// Removes consecutive repeats from a vector of node indices.
pub fn dedup_indices(v: &mut Vec<usize>)
    ensures
        final(v)@ == dedup_adjacent(old(v)@),
{
    let mut out: Vec<usize> = Vec::new();
    let n: usize = v.len();
    let mut i: usize = 0;
    while i < n
        invariant
            n == v.len(),
            i <= n,
            out@ == dedup_adjacent(v@.take(i as int)),
        decreases n - i,
    {
        let x: usize = v[i];
        proof {
            let t = v@.take(i as int);
            let t1 = v@.take(i + 1);
            assert(t1.drop_last() =~= t);
            lemma_dedup_shape(t);
        }
        if i == 0 || out[out.len() - 1] != x {
            out.push(x);
        }
        i += 1;
    }
    proof {
        assert(v@.take(n as int) =~= v@);
    }
    *v = out;
}

/// How often `x` occurs in `s`.
pub open spec fn occurrences(s: Seq<u64>, x: u64) -> nat
    decreases s.len(),
{
    if s.len() == 0 {
        0
    } else if s.last() == x {
        occurrences(s.drop_last(), x) + 1
    } else {
        occurrences(s.drop_last(), x)
    }
}

/// A value occurs in a sequence just if it occurs at least once.
pub proof fn lemma_occurrences_contains(s: Seq<u64>, x: u64)
    ensures
        occurrences(s, x) > 0 <==> s.contains(x),
        occurrences(s, x) <= s.len(),
    decreases s.len(),
{
    if s.len() > 0 {
        let front = s.drop_last();
        lemma_occurrences_contains(front, x);
        if front.contains(x) {
            let i = choose|i: int| 0 <= i < front.len() && front[i] == x;
            assert(s[i] == x);
        }
        if s.contains(x) && s.last() != x {
            let i = choose|i: int| 0 <= i < s.len() && s[i] == x;
            assert(front[i] == x);
        }
    }
}

/// Occurrences in two sequences, one after the other, add up.
pub proof fn lemma_occurrences_concat(a: Seq<u64>, b: Seq<u64>, x: u64)
    ensures
        occurrences(a + b, x) == occurrences(a, x) + occurrences(b, x),
    decreases b.len(),
{
    if b.len() == 0 {
        assert(a + b =~= a);
    } else {
        lemma_occurrences_concat(a, b.drop_last(), x);
        assert((a + b).drop_last() =~= a + b.drop_last());
    }
}

/// The sequence `s` with every value kept where it occurs first and removed
/// wherever it occurs again.
pub open spec fn dedup_all(s: Seq<u64>) -> Seq<u64>
    decreases s.len(),
{
    if s.len() == 0 {
        s
    } else if s.drop_last().contains(s.last()) {
        dedup_all(s.drop_last())
    } else {
        dedup_all(s.drop_last()).push(s.last())
    }
}

/// Removing repeats keeps exactly the values that occur, each once, and
/// never makes a sequence longer.
pub proof fn lemma_dedup_all(s: Seq<u64>)
    ensures
        forall|x: u64| #[trigger] dedup_all(s).contains(x) <==> s.contains(x),
        dedup_all(s).no_duplicates(),
        dedup_all(s).len() <= s.len(),
    decreases s.len(),
{
    if s.len() > 0 {
        let front = s.drop_last();
        let last = s.last();
        let d = dedup_all(front);
        let r = dedup_all(s);
        lemma_dedup_all(front);
        assert forall|x: u64| #[trigger] r.contains(x) <==> s.contains(x) by {
            assert(d.contains(x) <==> front.contains(x));
            if s.contains(x) {
                let i = choose|i: int| 0 <= i < s.len() && s[i] == x;
                if i < front.len() {
                    assert(front[i] == x);
                }
            }
            if front.contains(x) {
                let i = choose|i: int| 0 <= i < front.len() && front[i] == x;
                assert(s[i] == x);
            }
            assert(s[s.len() - 1] == last);
            if !front.contains(last) {
                assert(r[d.len() as int] == last);
                if d.contains(x) {
                    let j = choose|j: int| 0 <= j < d.len() && d[j] == x;
                    assert(r[j] == x);
                }
                if r.contains(x) {
                    let j = choose|j: int| 0 <= j < r.len() && r[j] == x;
                    if j < d.len() {
                        assert(d[j] == x);
                    }
                }
            }
        }
        if !front.contains(last) {
            assert forall|i: int, j: int| 0 <= i < r.len() && 0 <= j < r.len() && i != j implies r[i] != r[j] by {
                if i < d.len() && j < d.len() {
                    assert(d[i] != d[j]);
                } else if i < d.len() {
                    assert(d[i] == r[i]);
                    assert(d.contains(r[i]));
                } else {
                    assert(d[j] == r[j]);
                    assert(d.contains(r[j]));
                }
            }
        }
    }
}

/// Removes from a list of successors every value that stands in it already,
/// so that each successor is listed once, where it stood first.
pub fn dedup_successors(v: &mut Vec<u64>)
    ensures
        final(v)@ == dedup_all(old(v)@),
{
    let mut out: Vec<u64> = Vec::new();
    let mut seen: HashSet<u64> = HashSet::new();
    let n: usize = v.len();
    let mut i: usize = 0;
    proof {
        assert(v@.take(0) =~= Seq::<u64>::empty());
    }
    while i < n
        invariant
            n == v.len(),
            i <= n,
            out@ == dedup_all(v@.take(i as int)),
            forall|x: u64| seen@.contains(x) <==> v@.take(i as int).contains(x),
        decreases n - i,
    {
        let x: u64 = v[i];
        let ghost done = v@.take(i as int);
        let ghost next = v@.take(i + 1);
        let ghost marked = seen@;
        proof {
            assert(next.drop_last() =~= done);
            assert(next.last() == x);
        }
        if !seen.contains(&x) {
            seen.insert(x);
            out.push(x);
        }
        proof {
            assert forall|y: u64| seen@.contains(y) <==> next.contains(y) by {
                if done.contains(y) {
                    let t = choose|t: int| 0 <= t < done.len() && done[t] == y;
                    assert(next[t] == y);
                }
                if y == x {
                    assert(next[i as int] == y);
                }
                if next.contains(y) {
                    let t = choose|t: int| 0 <= t < next.len() && next[t] == y;
                    if t < i {
                        assert(done[t] == y);
                    }
                }
            }
        }
        i += 1;
    }
    proof {
        assert(v@.take(n as int) =~= v@);
    }
    *v = out;
}

} // verus!
