//! Match finding: every pair of distinct positions holding identical slices,
//! visited left to right so that each unordered pair is seen exactly once
//! and no slice is compared against itself.
use vstd::prelude::*;

verus! {

/// The views of a sequence of borrowed slices.
pub open spec fn views_of(s: Seq<&[u8]>) -> Seq<Seq<u8>> {
    s.map_values(|x: &[u8]| x@)
}

/// Distances `b' - a` for positions `b'` in `a+1 .. b` whose slice equals
/// the one at `a`, in ascending order of `b'`.
pub open spec fn row_distances(s: Seq<Seq<u8>>, a: int, b: int) -> Seq<int>
    decreases b - a,
{
    if b <= a + 1 {
        Seq::empty()
    } else if s[b - 1] == s[a] {
        row_distances(s, a, b - 1).push(b - 1 - a)
    } else {
        row_distances(s, a, b - 1)
    }
}

/// All match distances for first positions `0 .. a`, each first position
/// paired with every equal slice strictly to its right.
pub open spec fn distances_upto(s: Seq<Seq<u8>>, a: int) -> Seq<int>
    decreases a,
{
    if a <= 0 {
        Seq::empty()
    } else {
        distances_upto(s, a - 1) + row_distances(s, a - 1, s.len() as int)
    }
}

/// The full ordered sequence of match distances of `s`: one distance
/// `b - a` for every pair `a < b` with `s[a] == s[b]`.
pub open spec fn match_distances(s: Seq<Seq<u8>>) -> Seq<int> {
    distances_upto(s, s.len() as int)
}

/// Number of positions `i` in `0 .. m` whose slice equals the one at `j`.
pub open spec fn eq_earlier(s: Seq<Seq<u8>>, j: int, m: int) -> nat
    decreases m,
{
    if m <= 0 {
        0
    } else {
        eq_earlier(s, j, m - 1) + if s[m - 1] == s[j] {
            1nat
        } else {
            0nat
        }
    }
}

/// Number of unordered pairs `{i, j}` with `i < j < m` and `s[i] == s[j]`:
/// each pair of equal slices counted exactly once, and no position paired
/// with itself.
pub open spec fn eq_pair_count(s: Seq<Seq<u8>>, m: int) -> nat
    decreases m,
{
    if m <= 0 {
        0
    } else {
        eq_pair_count(s, m - 1) + eq_earlier(s, m - 1, m - 1)
    }
}

spec fn rowcount(s: Seq<Seq<u8>>, a: int, b: int) -> nat
    decreases b - a,
{
    if b <= a + 1 {
        0
    } else {
        rowcount(s, a, b - 1) + if s[b - 1] == s[a] {
            1nat
        } else {
            0nat
        }
    }
}

spec fn rowsum(s: Seq<Seq<u8>>, m: int, b: int) -> nat
    decreases m,
{
    if m <= 0 {
        0
    } else {
        rowsum(s, m - 1, b) + rowcount(s, m - 1, b)
    }
}

proof fn lemma_row_len(s: Seq<Seq<u8>>, a: int, b: int)
    ensures
        row_distances(s, a, b).len() == rowcount(s, a, b),
    decreases b - a,
{
    if b > a + 1 {
        lemma_row_len(s, a, b - 1);
    }
}

proof fn lemma_upto_len(s: Seq<Seq<u8>>, a: int)
    ensures
        distances_upto(s, a).len() == rowsum(s, a, s.len() as int),
    decreases a,
{
    if a > 0 {
        lemma_upto_len(s, a - 1);
        lemma_row_len(s, a - 1, s.len() as int);
    }
}

proof fn lemma_rowsum_extend(s: Seq<Seq<u8>>, m: int, b: int)
    requires
        0 <= m <= b,
    ensures
        rowsum(s, m, b + 1) == rowsum(s, m, b) + eq_earlier(s, b, m),
    decreases m,
{
    if m > 0 {
        lemma_rowsum_extend(s, m - 1, b);
        assert(rowcount(s, m - 1, b + 1) == rowcount(s, m - 1, b) + if s[b] == s[m - 1] {
            1nat
        } else {
            0nat
        });
    }
}

proof fn lemma_rowsum_diag(s: Seq<Seq<u8>>, m: int)
    ensures
        rowsum(s, m, m) == eq_pair_count(s, m),
    decreases m,
{
    if m > 0 {
        lemma_rowsum_diag(s, m - 1);
        lemma_rowsum_extend(s, m - 1, m - 1);
        assert(rowcount(s, m - 1, m) == 0);
    }
}

/// Law: the match search counts each unordered pair of equal slices exactly
/// once and never pairs a slice with itself — the number of distances it
/// emits is the number of pairs `i < j` with `s[i] == s[j]`.
pub proof fn lemma_match_count(s: Seq<Seq<u8>>)
    ensures
        match_distances(s).len() == eq_pair_count(s, s.len() as int),
{
    lemma_upto_len(s, s.len() as int);
    lemma_rowsum_diag(s, s.len() as int);
}

/// Exact character-for-character comparison of two slices.
fn slices_equal(a: &[u8], b: &[u8]) -> (r: bool)
    ensures
        r <==> a@ == b@,
{
    let n = a.len();
    if n != b.len() {
        return false;
    }
    for i in 0..n
        invariant
            n == a@.len(),
            n == b@.len(),
            forall|j: int| 0 <= j < i ==> a@[j] == b@[j],
    {
        if a[i] != b[i] {
            return false;
        }
    }
    proof {
        assert(a@ =~= b@);
    }
    true
}

/// For each pair of positions `a < b` with identical slices, the offset
/// distance `b - a`; pairs are visited with `a` ascending and, within one
/// `a`, `b` ascending. Every distance is at least 1.
pub fn find_match_distances(slices: &Vec<&[u8]>) -> (r: Vec<usize>)
    ensures
        r@.len() == match_distances(views_of(slices@)).len(),
        forall|i: int|
            0 <= i < r@.len() ==> r@[i] as int == match_distances(views_of(slices@))[i],
        forall|i: int| 0 <= i < r@.len() ==> r@[i] >= 1,
{
    let ghost vs = views_of(slices@);
    let n = slices.len();
    let mut r: Vec<usize> = Vec::new();
    let mut a: usize = 0;
    while a < n
        invariant
            n == slices@.len(),
            vs == views_of(slices@),
            a <= n,
            r@.len() == distances_upto(vs, a as int).len(),
            forall|i: int| 0 <= i < r@.len() ==> r@[i] as int == distances_upto(vs, a as int)[i],
            forall|i: int| 0 <= i < r@.len() ==> r@[i] >= 1,
        decreases n - a,
    {
        let mut b: usize = a + 1;
        while b < n
            invariant
                n == slices@.len(),
                vs == views_of(slices@),
                a < n,
                a + 1 <= b <= n,
                r@.len() == (distances_upto(vs, a as int) + row_distances(
                    vs,
                    a as int,
                    b as int,
                )).len(),
                forall|i: int|
                    0 <= i < r@.len() ==> r@[i] as int == (distances_upto(vs, a as int)
                        + row_distances(vs, a as int, b as int))[i],
                forall|i: int| 0 <= i < r@.len() ==> r@[i] >= 1,
            decreases n - b,
        {
            let ghost prevrow = distances_upto(vs, a as int) + row_distances(
                vs,
                a as int,
                b as int,
            );
            if slices_equal(slices[a], slices[b]) {
                proof {
                    assert(vs[a as int] == slices@[a as int]@);
                    assert(vs[b as int] == slices@[b as int]@);
                    assert(vs[b as int] == vs[a as int]);
                }
                r.push(b - a);
                proof {
                    assert(row_distances(vs, a as int, b as int + 1) == row_distances(
                        vs,
                        a as int,
                        b as int,
                    ).push(b as int - a as int));
                    assert(distances_upto(vs, a as int) + row_distances(vs, a as int, b as int + 1)
                        =~= prevrow.push(b as int - a as int));
                }
            } else {
                proof {
                    assert(vs[a as int] == slices@[a as int]@);
                    assert(vs[b as int] == slices@[b as int]@);
                    assert(vs[b as int] != vs[a as int]);
                    assert(row_distances(vs, a as int, b as int + 1) == row_distances(
                        vs,
                        a as int,
                        b as int,
                    ));
                }
            }
            b += 1;
        }
        proof {
            assert(distances_upto(vs, a as int + 1) == distances_upto(vs, a as int)
                + row_distances(vs, a as int, n as int));
        }
        a += 1;
    }
    proof {
        assert(distances_upto(vs, n as int) == match_distances(vs));
        if n == 0 {
            assert(match_distances(vs) =~= Seq::<int>::empty());
        }
    }
    r
}

} // verus!
