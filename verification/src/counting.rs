//! Counting helpers: occurrence counts in sequences of candidate key
//! lengths, and the number of match distances a candidate divides. The
//! frequency of a candidate in the final tally is exactly the number of
//! (match, divisor) pairs that produced it.
use vstd::prelude::*;

verus! {

/// Number of positions of `s` holding `k`.
pub open spec fn occurrences(s: Seq<usize>, k: usize) -> nat
    decreases s.len(),
{
    if s.len() == 0 {
        0
    } else {
        occurrences(s.drop_last(), k) + if s.last() == k {
            1nat
        } else {
            0nat
        }
    }
}

/// Number of distances in `ds` that `k` divides, with `1 <= k <= d`.
pub open spec fn divisor_count(ds: Seq<int>, k: int) -> nat
    decreases ds.len(),
{
    if ds.len() == 0 {
        0
    } else {
        divisor_count(ds.drop_last(), k) + if 1 <= k <= ds.last() && ds.last() % k == 0 {
            1nat
        } else {
            0nat
        }
    }
}

pub proof fn lemma_occurrences_push(s: Seq<usize>, x: usize, k: usize)
    ensures
        occurrences(s.push(x), k) == occurrences(s, k) + if x == k {
            1nat
        } else {
            0nat
        },
{
    assert(s.push(x).drop_last() =~= s);
    assert(s.push(x).last() == x);
}

pub proof fn lemma_divisor_count_push(ds: Seq<int>, d: int, k: int)
    ensures
        divisor_count(ds.push(d), k) == divisor_count(ds, k) + if 1 <= k <= d && d % k == 0 {
            1nat
        } else {
            0nat
        },
{
    assert(ds.push(d).drop_last() =~= ds);
    assert(ds.push(d).last() == d);
}

pub proof fn lemma_occurrences_concat(a: Seq<usize>, b: Seq<usize>, k: usize)
    ensures
        occurrences(a + b, k) == occurrences(a, k) + occurrences(b, k),
    decreases b.len(),
{
    if b.len() == 0 {
        assert(a + b =~= a);
    } else {
        lemma_occurrences_concat(a, b.drop_last(), k);
        assert((a + b).drop_last() =~= a + b.drop_last());
        assert((a + b).last() == b.last());
    }
}

pub proof fn lemma_divisor_count_concat(a: Seq<int>, b: Seq<int>, k: int)
    ensures
        divisor_count(a + b, k) == divisor_count(a, k) + divisor_count(b, k),
    decreases b.len(),
{
    if b.len() == 0 {
        assert(a + b =~= a);
    } else {
        lemma_divisor_count_concat(a, b.drop_last(), k);
        assert((a + b).drop_last() =~= a + b.drop_last());
        assert((a + b).last() == b.last());
    }
}

/// A value cannot occur more often than the sequence is long.
pub proof fn lemma_occurrences_le_len(s: Seq<usize>, k: usize)
    ensures
        occurrences(s, k) <= s.len(),
    decreases s.len(),
{
    if s.len() > 0 {
        lemma_occurrences_le_len(s.drop_last(), k);
    }
}

/// In a sequence without duplicates, a value occurs once if present and
/// never otherwise.
pub proof fn lemma_occurrences_no_duplicates(s: Seq<usize>, k: usize)
    requires
        s.no_duplicates(),
    ensures
        occurrences(s, k) == if s.contains(k) {
            1nat
        } else {
            0nat
        },
    decreases s.len(),
{
    if s.len() > 0 {
        assert(s.drop_last().no_duplicates());
        lemma_occurrences_no_duplicates(s.drop_last(), k);
        if s.last() == k {
            assert(!s.drop_last().contains(k)) by {
                if s.drop_last().contains(k) {
                    let i = choose|i: int| 0 <= i < s.drop_last().len() && s.drop_last()[i] == k;
                    assert(s[i] == k);
                    assert(s[s.len() - 1] == k);
                }
            }
            assert(s.contains(k)) by {
                assert(s[s.len() - 1] == k);
            }
        } else {
            assert(s.contains(k) <==> s.drop_last().contains(k)) by {
                if s.contains(k) {
                    let i = choose|i: int| 0 <= i < s.len() && s[i] == k;
                    assert(i < s.len() - 1);
                    assert(s.drop_last()[i] == k);
                }
                if s.drop_last().contains(k) {
                    let i = choose|i: int| 0 <= i < s.drop_last().len() && s.drop_last()[i] == k;
                    assert(s[i] == k);
                }
            }
        }
    }
}

} // verus!
