//! Report ordering: entries are (candidate key length, frequency) pairs,
//! sorted by descending frequency with ties broken by descending key length.
use vstd::prelude::*;

verus! {

/// `a` comes strictly before `b` in the report: higher frequency first,
/// equal frequencies broken by the larger key length.
pub open spec fn report_before(a: (usize, usize), b: (usize, usize)) -> bool {
    a.1 > b.1 || (a.1 == b.1 && a.0 > b.0)
}

/// A report in strictly descending order: every entry comes before each
/// later one.
pub open spec fn report_sorted(r: Seq<(usize, usize)>) -> bool {
    forall|i: int, j: int| 0 <= i < j < r.len() ==> report_before(r[i], r[j])
}

/// Executable comparison deciding `report_before`.
pub fn comes_before(a: (usize, usize), b: (usize, usize)) -> (r: bool)
    ensures
        r == report_before(a, b),
{
    a.1 > b.1 || (a.1 == b.1 && a.0 > b.0)
}

/// Law: a strictly ordered report is determined by its set of entries —
/// two sorted reports holding exactly the same entries are equal.
pub proof fn lemma_sorted_reports_equal(r1: Seq<(usize, usize)>, r2: Seq<(usize, usize)>)
    requires
        report_sorted(r1),
        report_sorted(r2),
        forall|p: (usize, usize)| r1.contains(p) <==> r2.contains(p),
    ensures
        r1 == r2,
    decreases r1.len(),
{
    if r1.len() == 0 {
        if r2.len() > 0 {
            assert(r2.contains(r2[0]));
            assert(r1.contains(r2[0]));
        }
        assert(r1 =~= r2);
    } else {
        assert(r1.contains(r1[0]));
        assert(r2.contains(r1[0]));
        let i = choose|i: int| 0 <= i < r2.len() && r2[i] == r1[0];
        assert(r2.contains(r2[0]));
        assert(r1.contains(r2[0]));
        let j = choose|j: int| 0 <= j < r1.len() && r1[j] == r2[0];
        if i > 0 {
            assert(report_before(r2[0], r2[i]));
            assert(j > 0) by {
                if j == 0 {
                    assert(r1[0] == r2[0]);
                }
            }
            assert(report_before(r1[0], r1[j]));
            assert(false);
        }
        assert(r1[0] == r2[0]);
        let t1 = r1.subrange(1, r1.len() as int);
        let t2 = r2.subrange(1, r2.len() as int);
        assert(report_sorted(t1)) by {
            assert(forall|i1: int, j1: int|
                0 <= i1 < j1 < t1.len() ==> t1[i1] == r1[i1 + 1] && t1[j1] == r1[j1 + 1]);
        }
        assert(report_sorted(t2)) by {
            assert(forall|i1: int, j1: int|
                0 <= i1 < j1 < t2.len() ==> t2[i1] == r2[i1 + 1] && t2[j1] == r2[j1 + 1]);
        }
        assert forall|p: (usize, usize)| t1.contains(p) implies t2.contains(p) by {
            let a = choose|a: int| 0 <= a < t1.len() && t1[a] == p;
            assert(r1[a + 1] == p);
            assert(r1.contains(p));
            assert(p != r1[0]) by {
                if p == r1[0] {
                    assert(report_before(r1[0], r1[a + 1]));
                }
            }
            assert(r2.contains(p));
            let b = choose|b: int| 0 <= b < r2.len() && r2[b] == p;
            assert(b != 0);
            assert(t2[b - 1] == p);
        }
        assert forall|p: (usize, usize)| t2.contains(p) implies t1.contains(p) by {
            let a = choose|a: int| 0 <= a < t2.len() && t2[a] == p;
            assert(r2[a + 1] == p);
            assert(r2.contains(p));
            assert(p != r2[0]) by {
                if p == r2[0] {
                    assert(report_before(r2[0], r2[a + 1]));
                }
            }
            assert(r1.contains(p));
            let b = choose|b: int| 0 <= b < r1.len() && r1[b] == p;
            assert(b != 0);
            assert(t1[b - 1] == p);
        }
        lemma_sorted_reports_equal(t1, t2);
        assert(r1 =~= r2) by {
            assert(forall|a: int| 1 <= a < r1.len() ==> r1[a] == t1[a - 1]);
            assert(forall|a: int| 1 <= a < r2.len() ==> r2[a] == t2[a - 1]);
        }
    }
}

} // verus!
