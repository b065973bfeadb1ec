//! The frequency table: candidate key length -> number of (match, divisor)
//! pairs that produced it, kept as a vector of pairs sorted by key, built by
//! increment-on-insert, and ranked into the final report.
use vstd::prelude::*;
use crate::report::comes_before;
use crate::report::report_before;
use crate::report::report_sorted;

verus! {

/// Lookup of key `k` in an entry list: the count stored beside it, 0 when
/// the key is absent.
spec fn freq_in(s: Seq<(usize, usize)>, k: int) -> int
    decreases s.len(),
{
    if s.len() == 0 {
        0
    } else if s.last().0 as int == k {
        s.last().1 as int
    } else {
        freq_in(s.drop_last(), k)
    }
}

spec fn keys_distinct(s: Seq<(usize, usize)>) -> bool {
    forall|i: int, j: int| 0 <= i < j < s.len() ==> s[i].0 != s[j].0
}

proof fn lemma_freq_in_found(s: Seq<(usize, usize)>, k: int, j: int)
    requires
        keys_distinct(s),
        0 <= j < s.len(),
        s[j].0 as int == k,
    ensures
        freq_in(s, k) == s[j].1 as int,
    decreases s.len(),
{
    if j == s.len() - 1 {
        assert(s.last().0 as int == k);
    } else {
        assert(s.last().0 != s[j].0);
        assert(keys_distinct(s.drop_last())) by {
            assert(forall|a: int, b: int|
                0 <= a < b < s.len() - 1 ==> s.drop_last()[a] == s[a] && s.drop_last()[b] == s[b]);
        }
        assert(s.drop_last()[j] == s[j]);
        lemma_freq_in_found(s.drop_last(), k, j);
    }
}

proof fn lemma_freq_in_absent(s: Seq<(usize, usize)>, k: int)
    requires
        forall|j: int| 0 <= j < s.len() ==> s[j].0 as int != k,
    ensures
        freq_in(s, k) == 0,
    decreases s.len(),
{
    if s.len() > 0 {
        assert(s[s.len() - 1].0 as int != k);
        assert(forall|j: int| 0 <= j < s.len() - 1 ==> s.drop_last()[j] == s[j]);
        lemma_freq_in_absent(s.drop_last(), k);
    }
}

proof fn lemma_freq_in_nonzero(s: Seq<(usize, usize)>, k: int)
    requires
        freq_in(s, k) != 0,
    ensures
        exists|j: int| 0 <= j < s.len() && s[j].0 as int == k,
    decreases s.len(),
{
    if s.len() > 0 {
        if s.last().0 as int == k {
            assert(s[s.len() - 1].0 as int == k);
        } else {
            lemma_freq_in_nonzero(s.drop_last(), k);
            let j = choose|j: int| 0 <= j < s.drop_last().len() && s.drop_last()[j].0 as int == k;
            assert(s[j].0 as int == k);
        }
    }
}

/// The running tally of candidate key lengths: a map from candidate to the
/// number of times it arose as a divisor of a match distance.
pub struct FreqTable {
    entries: Vec<(usize, usize)>,
}

impl FreqTable {
    /// Entries are sorted by strictly increasing key and every stored count
    /// is at least 1.
    pub closed spec fn wf(self) -> bool {
        &&& forall|i: int, j: int|
            0 <= i < j < self.entries@.len() ==> self.entries@[i].0 < self.entries@[j].0
        &&& forall|i: int| 0 <= i < self.entries@.len() ==> self.entries@[i].1 >= 1
    }

    /// The tally of candidate `k`; 0 for a candidate never seen.
    pub closed spec fn freq_of(self, k: int) -> int {
        freq_in(self.entries@, k)
    }

    /// An empty table: every candidate has tally 0.
    pub fn new() -> (t: FreqTable)
        ensures
            t.wf(),
            forall|k: int| t.freq_of(k) == 0,
    {
        let t = FreqTable { entries: Vec::new() };
        proof {
            assert(forall|k: int| freq_in(t.entries@, k) == 0);
        }
        t
    }

    /// Add one occurrence of candidate `k`: its tally grows by one and every
    /// other tally is unchanged.
    #[verifier::spinoff_prover]
    pub fn increment(&mut self, k: usize)
        requires
            old(self).wf(),
            old(self).freq_of(k as int) < usize::MAX as int,
        ensures
            final(self).wf(),
            final(self).freq_of(k as int) == old(self).freq_of(k as int) + 1,
            forall|x: int| x != k as int ==> final(self).freq_of(x) == old(self).freq_of(x),
    {
        let ghost s0 = self.entries@;
        proof {
            assert(keys_distinct(s0));
        }
        let n = self.entries.len();
        let mut i: usize = 0;
        while i < n && self.entries[i].0 < k
            invariant
                n == self.entries@.len(),
                self.entries@ == s0,
                i <= n,
                forall|j: int| 0 <= j < i ==> s0[j].0 < k,
            decreases n - i,
        {
            i += 1;
        }
        if i < n && self.entries[i].0 == k {
            let c = self.entries[i].1;
            proof {
                lemma_freq_in_found(s0, k as int, i as int);
            }
            self.entries[i] = (k, c + 1);
            proof {
                let s1 = self.entries@;
                assert(s1 == s0.update(i as int, (k, (c + 1) as usize)));
                assert(forall|j: int| 0 <= j < s1.len() && j != i ==> s1[j] == s0[j]);
                assert(s1[i as int].0 == k && s1[i as int].1 == c + 1);
                assert(self.wf());
                assert(keys_distinct(s1));
                lemma_freq_in_found(s1, k as int, i as int);
                assert forall|x: int| x != k as int implies freq_in(s1, x) == freq_in(s0, x) by {
                    if freq_in(s0, x) != 0 {
                        lemma_freq_in_nonzero(s0, x);
                        let j = choose|j: int| 0 <= j < s0.len() && s0[j].0 as int == x;
                        lemma_freq_in_found(s0, x, j);
                        assert(j != i);
                        lemma_freq_in_found(s1, x, j);
                    } else {
                        if freq_in(s1, x) != 0 {
                            lemma_freq_in_nonzero(s1, x);
                            let j = choose|j: int| 0 <= j < s1.len() && s1[j].0 as int == x;
                            assert(j != i);
                            assert(s0[j].0 as int == x);
                            lemma_freq_in_found(s0, x, j);
                        }
                    }
                }
            }
        } else {
            proof {
                assert(i == n || s0[i as int].0 > k);
                assert(forall|j: int| i <= j < s0.len() ==> s0[j].0 > k) by {
                    assert(forall|j: int| i < j < s0.len() ==> s0[j].0 > s0[i as int].0);
                }
                assert(forall|j: int| 0 <= j < s0.len() ==> s0[j].0 as int != k as int);
                lemma_freq_in_absent(s0, k as int);
            }
            self.entries.insert(i, (k, 1));
            proof {
                let s1 = self.entries@;
                assert(s1 == s0.insert(i as int, (k, 1usize)));
                assert(forall|j: int| 0 <= j < i ==> s1[j] == s0[j]);
                assert(forall|j: int| i < j < s1.len() ==> s1[j] == s0[j - 1]);
                assert(s1[i as int] == (k, 1usize));
                assert(self.wf());
                assert(keys_distinct(s1));
                lemma_freq_in_found(s1, k as int, i as int);
                assert forall|x: int| x != k as int implies freq_in(s1, x) == freq_in(s0, x) by {
                    if freq_in(s0, x) != 0 {
                        lemma_freq_in_nonzero(s0, x);
                        let j = choose|j: int| 0 <= j < s0.len() && s0[j].0 as int == x;
                        lemma_freq_in_found(s0, x, j);
                        if j < i {
                            lemma_freq_in_found(s1, x, j);
                        } else {
                            assert(s1[j + 1] == s0[j]);
                            lemma_freq_in_found(s1, x, j + 1);
                        }
                    } else {
                        if freq_in(s1, x) != 0 {
                            lemma_freq_in_nonzero(s1, x);
                            let j = choose|j: int| 0 <= j < s1.len() && s1[j].0 as int == x;
                            assert(j != i);
                            if j < i {
                                lemma_freq_in_found(s0, x, j);
                            } else {
                                assert(s1[j] == s0[j - 1]);
                                lemma_freq_in_found(s0, x, j - 1);
                            }
                        }
                    }
                }
            }
        }
    }

    /// The tally of candidate `k`.
    pub fn count(&self, k: usize) -> (c: usize)
        requires
            self.wf(),
        ensures
            c as int == self.freq_of(k as int),
    {
        let n = self.entries.len();
        for i in 0..n
            invariant
                self.wf(),
                n == self.entries@.len(),
                forall|j: int| 0 <= j < i ==> self.entries@[j].0 != k,
        {
            let entry = self.entries[i];
            if entry.0 == k {
                proof {
                    assert(keys_distinct(self.entries@));
                    lemma_freq_in_found(self.entries@, k as int, i as int);
                }
                return entry.1;
            }
        }
        proof {
            lemma_freq_in_absent(self.entries@, k as int);
        }
        0
    }

    /// The final report: every candidate whose key length and tally reach
    /// the thresholds, as (key length, tally) pairs sorted by descending
    /// tally, ties broken by descending key length.
    #[verifier::spinoff_prover]
    #[verifier::rlimit(100)]
    pub fn rank(&self, min_key_length: usize, min_duplicates: usize) -> (r: Vec<(usize, usize)>)
        requires
            self.wf(),
        ensures
            report_sorted(r@),
            forall|i: int|
                0 <= i < r@.len() ==> r@[i].1 as int == self.freq_of(r@[i].0 as int) && r@[i].0
                    >= min_key_length && r@[i].1 >= min_duplicates && r@[i].1 >= 1,
            forall|k: usize|
                k >= min_key_length && self.freq_of(k as int) >= min_duplicates as int
                    && self.freq_of(k as int) >= 1 ==> exists|i: int|
                    0 <= i < r@.len() && r@[i].0 == k,
    {
        let ghost s = self.entries@;
        proof {
            assert(keys_distinct(s));
        }
        let n = self.entries.len();
        let mut r: Vec<(usize, usize)> = Vec::new();
        let mut e: usize = 0;
        while e < n
            invariant
                e <= n,
                self.wf(),
                s == self.entries@,
                n == self.entries@.len(),
                report_sorted(r@),
                forall|i: int|
                    0 <= i < r@.len() ==> r@[i].1 as int == self.freq_of(r@[i].0 as int) && r@[i].0
                        >= min_key_length && r@[i].1 >= min_duplicates && r@[i].1 >= 1,
                forall|i: int| #![trigger r@[i]]
                    0 <= i < r@.len() ==> exists|j: int| 0 <= j < e && s[j].0 == r@[i].0,
                forall|j: int|
                    0 <= j < e && s[j].0 >= min_key_length && s[j].1 >= min_duplicates
                        ==> exists|i: int| 0 <= i < r@.len() && r@[i].0 == s[j].0,
            decreases n - e,
        {
            let entry = self.entries[e];
            let k = entry.0;
            let c = entry.1;
            proof {
                lemma_freq_in_found(s, k as int, e as int);
            }
            if k >= min_key_length && c >= min_duplicates {
                let ghost r0 = r@;
                proof {
                    assert forall|i: int| 0 <= i < r0.len() implies r0[i].0 != k by {
                        let j = choose|j: int| 0 <= j < e && s[j].0 == r0[i].0;
                        assert(s[j].0 != s[e as int].0);
                    }
                }
                let mut p: usize = 0;
                while p < r.len() && comes_before(r[p], (k, c))
                    invariant
                        r@ == r0,
                        p <= r0.len(),
                        forall|i: int| 0 <= i < p ==> report_before(r0[i], (k, c)),
                    decreases r0.len() - p,
                {
                    p += 1;
                }
                proof {
                    if (p as int) < r0.len() {
                        assert(!report_before(r0[p as int], (k, c)));
                        assert(r0[p as int].0 != k);
                        assert(report_before((k, c), r0[p as int]));
                    }
                }
                r.insert(p, (k, c));
                proof {
                    assert(r@ == r0.insert(p as int, (k, c)));
                    assert(forall|x: int| 0 <= x < p ==> r@[x] == r0[x]);
                    assert(forall|x: int| p < x < r@.len() ==> r@[x] == r0[x - 1]);
                    assert(r@[p as int] == (k, c));
                    assert(report_sorted(r@)) by {
                        assert forall|i: int, j: int| 0 <= i < j < r@.len() implies report_before(
                            r@[i],
                            r@[j],
                        ) by {
                            if j == p {
                                assert(report_before(r0[i], (k, c)));
                            } else if i == p {
                                assert(report_before((k, c), r0[p as int]));
                                if j > p + 1 {
                                    assert(report_before(r0[p as int], r0[j - 1]));
                                }
                            }
                        }
                    }
                    assert forall|i: int| #![trigger r@[i]] 0 <= i < r@.len() implies exists|j: int|
                        0 <= j < e + 1 && s[j].0 == r@[i].0 by {
                        if i == p {
                            assert(s[e as int].0 == r@[i].0);
                        } else if i < p {
                            let j = choose|j: int| 0 <= j < e && s[j].0 == r0[i].0;
                            assert(s[j].0 == r@[i].0);
                        } else {
                            let j = choose|j: int| 0 <= j < e && s[j].0 == r0[i - 1].0;
                            assert(s[j].0 == r@[i].0);
                        }
                    }
                    assert forall|j: int|
                        0 <= j < e + 1 && s[j].0 >= min_key_length && s[j].1 >= min_duplicates
                         implies exists|i: int| 0 <= i < r@.len() && r@[i].0 == s[j].0 by {
                        if j == e {
                            assert(r@[p as int].0 == s[j].0);
                        } else {
                            let i = choose|i: int| 0 <= i < r0.len() && r0[i].0 == s[j].0;
                            if i < p {
                                assert(r@[i].0 == s[j].0);
                            } else {
                                assert(r@[i + 1].0 == s[j].0);
                            }
                        }
                    }
                }
            } else {
                proof {
                    assert forall|i: int| #![trigger r@[i]] 0 <= i < r@.len() implies exists|j: int|
                        0 <= j < e + 1 && s[j].0 == r@[i].0 by {
                        let j = choose|j: int| 0 <= j < e && s[j].0 == r@[i].0;
                        assert(0 <= j < e + 1 && s[j].0 == r@[i].0);
                    }
                    assert forall|j: int|
                        0 <= j < e + 1 && s[j].0 >= min_key_length && s[j].1 >= min_duplicates
                         implies exists|i: int| 0 <= i < r@.len() && r@[i].0 == s[j].0 by {
                        assert(j != e);
                    }
                }
            }
            e += 1;
        }
        proof {
            assert forall|k: usize|
                k >= min_key_length && self.freq_of(k as int) >= min_duplicates as int
                    && self.freq_of(k as int) >= 1 implies exists|i: int|
                0 <= i < r@.len() && r@[i].0 == k by {
                lemma_freq_in_nonzero(s, k as int);
                let j = choose|j: int| 0 <= j < s.len() && s[j].0 as int == k as int;
                lemma_freq_in_found(s, k as int, j);
                assert(s[j].0 == k);
                assert(s[j].1 as int == self.freq_of(k as int));
                assert(s[j].0 >= min_key_length && s[j].1 >= min_duplicates);
            }
        }
        r
    }
}

} // verus!
