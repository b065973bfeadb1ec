//! The full examination pipeline: for every window length from half the
//! ciphertext length down to the configured minimum, find repeated slices,
//! factorize each repeat distance, tally every divisor as a candidate key
//! length, then filter and rank the tally into the report.
use vstd::prelude::*;
use crate::Config;
use crate::counting::{
    divisor_count, lemma_divisor_count_concat, lemma_divisor_count_push, lemma_occurrences_concat,
    lemma_occurrences_le_len, lemma_occurrences_no_duplicates, lemma_occurrences_push, occurrences,
};
use crate::divisors::get_factors;
use crate::freq::FreqTable;
use crate::matching::{find_match_distances, match_distances, views_of};
use crate::report::{lemma_sorted_reports_equal, report_sorted};
use crate::slices::{get_slices, slices_of};

verus! {

/// All match distances of `text`, concatenated over window lengths from
/// `hi` down to `lo`.
pub open spec fn distances_down_to(text: Seq<u8>, hi: int, lo: int) -> Seq<int>
    decreases hi - lo + 1,
{
    if hi < lo {
        Seq::empty()
    } else {
        match_distances(slices_of(text, hi)) + distances_down_to(text, hi - 1, lo)
    }
}

/// All match distances the pipeline observes: window lengths from half the
/// text length down to `min_len`.
pub open spec fn all_distances(text: Seq<u8>, min_len: int) -> Seq<int> {
    distances_down_to(text, text.len() as int / 2, min_len)
}

/// What the final report of an examination with distance sequence `ds` and
/// thresholds `min_key`, `min_dup` must look like: strictly ordered, every
/// entry carrying the exact tally of its candidate and meeting both
/// thresholds, and containing every candidate that meets them.
pub open spec fn valid_report(
    r: Seq<(usize, usize)>,
    ds: Seq<int>,
    min_key: int,
    min_dup: int,
) -> bool {
    &&& report_sorted(r)
    &&& forall|i: int|
        0 <= i < r.len() ==> r[i].1 as int == divisor_count(ds, r[i].0 as int) && r[i].0 as int
            >= min_key && r[i].1 as int >= min_dup && r[i].1 >= 1
    &&& forall|k: usize|
        k as int >= min_key && divisor_count(ds, k as int) >= min_dup && divisor_count(
            ds,
            k as int,
        ) >= 1 ==> exists|i: int| 0 <= i < r.len() && r[i].0 == k
}

proof fn lemma_distances_step(text: Seq<u8>, hi: int, lo: int)
    requires
        lo <= hi,
    ensures
        distances_down_to(text, hi, lo) == distances_down_to(text, hi, lo + 1) + match_distances(
            slices_of(text, lo),
        ),
    decreases hi - lo,
{
    if hi == lo {
        assert(distances_down_to(text, hi, lo + 1) == Seq::<int>::empty());
        assert(distances_down_to(text, hi - 1, lo) == Seq::<int>::empty());
        assert(distances_down_to(text, hi, lo) =~= match_distances(slices_of(text, lo)));
        assert(distances_down_to(text, hi, lo + 1) + match_distances(slices_of(text, lo)) =~= match_distances(
            slices_of(text, lo),
        ));
    } else {
        lemma_distances_step(text, hi - 1, lo);
        assert(distances_down_to(text, hi, lo) == match_distances(slices_of(text, hi)) + (
        distances_down_to(text, hi - 1, lo + 1) + match_distances(slices_of(text, lo))));
        assert(match_distances(slices_of(text, hi)) + (distances_down_to(text, hi - 1, lo + 1)
            + match_distances(slices_of(text, lo))) =~= (match_distances(slices_of(text, hi))
            + distances_down_to(text, hi - 1, lo + 1)) + match_distances(slices_of(text, lo)));
    }
}

/// A sequence meeting `get_factors`'s contract for `d` holds `k` once when
/// `k` divides `d` and not at all otherwise.
proof fn lemma_factor_occurrences(f: Seq<usize>, d: usize, k: usize)
    requires
        forall|i: int, j: int| 0 <= i < j < f.len() ==> f[i] < f[j],
        forall|i: int| 0 <= i < f.len() ==> 1 <= f[i] <= d && d as int % (f[i] as int) == 0,
        forall|x: usize| 1 <= x <= d && d as int % (x as int) == 0 ==> f.contains(x),
    ensures
        occurrences(f, k) == if 1 <= k <= d && d as int % (k as int) == 0 {
            1nat
        } else {
            0nat
        },
{
    assert(f.no_duplicates()) by {
        assert forall|i: int, j: int|
            0 <= i < f.len() && 0 <= j < f.len() && i != j implies f[i] != f[j] by {
            if i < j {
                assert(f[i] < f[j]);
            } else {
                assert(f[j] < f[i]);
            }
        }
    }
    lemma_occurrences_no_duplicates(f, k);
    if 1 <= k <= d && d as int % (k as int) == 0 {
        assert(f.contains(k));
    } else {
        if f.contains(k) {
            let i = choose|i: int| 0 <= i < f.len() && f[i] == k;
            assert(1 <= f[i] <= d && d as int % (f[i] as int) == 0);
            assert(false);
        }
    }
}

/// Run the Kasiski examination of `text` under the thresholds of `cfg`:
/// the returned report holds exactly the candidate key lengths meeting the
/// thresholds, each with the number of (match, divisor) pairs that produced
/// it, sorted by descending frequency, ties broken by descending key length.
#[verifier::spinoff_prover]
pub fn examine(text: &[u8], cfg: &Config) -> (report: Vec<(usize, usize)>)
    requires
        cfg.min_slice_length >= 1,
    ensures
        valid_report(
            report@,
            all_distances(text@, cfg.min_slice_length as int),
            cfg.min_key_length as int,
            cfg.min_duplicates as int,
        ),
{
    let n = text.len();
    let max_slice_len = n / 2;
    let ghost hi = max_slice_len as int;
    let ghost lo = cfg.min_slice_length as int;
    let mut key_lengths: Vec<usize> = Vec::new();
    let mut l = max_slice_len;
    while l >= cfg.min_slice_length
        invariant
            cfg.min_slice_length >= 1,
            n == text@.len(),
            max_slice_len == n / 2,
            hi == max_slice_len as int,
            lo == cfg.min_slice_length as int,
            l <= max_slice_len,
            l as int + 1 >= lo || l == max_slice_len,
            forall|k: usize|
                occurrences(key_lengths@, k) == divisor_count(
                    distances_down_to(text@, hi, l as int + 1),
                    k as int,
                ),
        decreases l,
    {
        let slices = get_slices(text, l);
        let dists = find_match_distances(&slices);
        let ghost vs = views_of(slices@);
        proof {
            assert(vs =~= slices_of(text@, l as int)) by {
                assert(forall|i: int|
                    0 <= i < slices@.len() ==> vs[i] == slices@[i]@ && slices@[i]@ == slices_of(
                        text@,
                        l as int,
                    )[i]);
            }
        }
        let ghost dprev = distances_down_to(text@, hi, l as int + 1);
        let ghost md = match_distances(vs);
        let mut t: usize = 0;
        while t < dists.len()
            invariant
                t <= dists@.len(),
                dists@.len() == md.len(),
                forall|i: int| 0 <= i < dists@.len() ==> dists@[i] as int == md[i],
                forall|k: usize|
                    occurrences(key_lengths@, k) == divisor_count(dprev, k as int) + divisor_count(
                        md.take(t as int),
                        k as int,
                    ),
            decreases dists@.len() - t,
        {
            let d = dists[t];
            let mut fs = get_factors(d);
            let ghost fsv = fs@;
            let ghost klv = key_lengths@;
            key_lengths.append(&mut fs);
            proof {
                assert(key_lengths@ == klv + fsv);
                assert forall|k: usize|
                    occurrences(key_lengths@, k) == divisor_count(dprev, k as int) + divisor_count(
                        md.take(t as int + 1),
                        k as int,
                    ) by {
                    lemma_occurrences_concat(klv, fsv, k);
                    lemma_factor_occurrences(fsv, d, k);
                    assert(md.take(t as int + 1) =~= md.take(t as int).push(md[t as int]));
                    lemma_divisor_count_push(md.take(t as int), md[t as int], k as int);
                    assert(md[t as int] == d as int);
                }
            }
            t += 1;
        }
        proof {
            assert(md.take(md.len() as int) =~= md);
            lemma_distances_step(text@, hi, l as int);
            assert forall|k: usize|
                occurrences(key_lengths@, k) == divisor_count(
                    distances_down_to(text@, hi, l as int),
                    k as int,
                ) by {
                lemma_divisor_count_concat(dprev, md, k as int);
            }
        }
        l -= 1;
    }
    proof {
        if l as int + 1 >= lo {
            assert(l as int + 1 == lo);
        } else {
            assert(l == max_slice_len);
            assert(hi < lo);
            assert(distances_down_to(text@, hi, l as int + 1) == Seq::<int>::empty());
            assert(distances_down_to(text@, hi, lo) == Seq::<int>::empty());
        }
        assert(distances_down_to(text@, hi, l as int + 1) == all_distances(text@, lo));
    }
    let ghost ds = all_distances(text@, lo);
    let mut table = FreqTable::new();
    let total = key_lengths.len();
    let mut j: usize = 0;
    while j < total
        invariant
            total == key_lengths@.len(),
            j <= total,
            table.wf(),
            forall|k: usize|
                table.freq_of(k as int) == occurrences(key_lengths@.take(j as int), k),
            forall|k: usize| occurrences(key_lengths@, k) == divisor_count(ds, k as int),
        decreases total - j,
    {
        let kk = key_lengths[j];
        proof {
            lemma_occurrences_le_len(key_lengths@.take(j as int), kk);
        }
        table.increment(kk);
        proof {
            assert forall|k: usize|
                table.freq_of(k as int) == occurrences(key_lengths@.take(j as int + 1), k) by {
                assert(key_lengths@.take(j as int + 1) =~= key_lengths@.take(j as int).push(
                    key_lengths@[j as int],
                ));
                lemma_occurrences_push(key_lengths@.take(j as int), key_lengths@[j as int], k);
            }
        }
        j += 1;
    }
    proof {
        assert(key_lengths@.take(total as int) =~= key_lengths@);
    }
    let report = table.rank(cfg.min_key_length, cfg.min_duplicates);
    proof {
        assert forall|i: int|
            0 <= i < report@.len() implies report@[i].1 as int == divisor_count(
            ds,
            report@[i].0 as int,
        ) && report@[i].0 as int >= cfg.min_key_length as int && report@[i].1 as int
            >= cfg.min_duplicates as int && report@[i].1 >= 1 by {
            let k: usize = report@[i].0;
            assert(table.freq_of(k as int) == occurrences(key_lengths@, k));
        }
        assert forall|k: usize|
            k as int >= cfg.min_key_length as int && divisor_count(ds, k as int)
                >= cfg.min_duplicates as int && divisor_count(ds, k as int) >= 1 implies exists|
            i: int,
        | 0 <= i < report@.len() && report@[i].0 == k by {
            assert(table.freq_of(k as int) == occurrences(key_lengths@, k));
        }
    }
    report
}

/// Law: the examination is deterministic — its contract pins the report
/// down, so any two reports that satisfy it for the same ciphertext and the
/// same thresholds are identical.
pub proof fn lemma_examination_deterministic(
    text: Seq<u8>,
    min_slice: int,
    min_key: int,
    min_dup: int,
    r1: Seq<(usize, usize)>,
    r2: Seq<(usize, usize)>,
)
    requires
        valid_report(r1, all_distances(text, min_slice), min_key, min_dup),
        valid_report(r2, all_distances(text, min_slice), min_key, min_dup),
    ensures
        r1 == r2,
{
    let ds = all_distances(text, min_slice);
    assert forall|p: (usize, usize)| r1.contains(p) implies r2.contains(p) by {
        let i = choose|i: int| 0 <= i < r1.len() && r1[i] == p;
        assert(p.1 as int == divisor_count(ds, p.0 as int));
        let j = choose|j: int| 0 <= j < r2.len() && r2[j].0 == p.0;
        assert(r2[j].1 as int == divisor_count(ds, p.0 as int));
        assert(r2[j] == p);
    }
    assert forall|p: (usize, usize)| r2.contains(p) implies r1.contains(p) by {
        let i = choose|i: int| 0 <= i < r2.len() && r2[i] == p;
        assert(p.1 as int == divisor_count(ds, p.0 as int));
        let j = choose|j: int| 0 <= j < r1.len() && r1[j].0 == p.0;
        assert(r1[j].1 as int == divisor_count(ds, p.0 as int));
        assert(r1[j] == p);
    }
    lemma_sorted_reports_equal(r1, r2);
}

} // verus!
