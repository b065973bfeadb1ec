//! Divisor enumeration: every match distance is broken into its positive
//! divisors, each a candidate key length.
use vstd::prelude::*;

verus! {

/// The positive divisors of `d`, as a set of integers.
pub open spec fn divisor_set(d: int) -> Set<int> {
    Set::new(|x: int| 1 <= x <= d && d % x == 0)
}

/// Trial division: the strictly increasing sequence of positive divisors of
/// `value`. For `value >= 1` it always contains both `1` and `value`;
/// for `value == 0` it is empty.
pub fn get_factors(value: usize) -> (r: Vec<usize>)
    ensures
        forall|i: int, j: int| 0 <= i < j < r@.len() ==> r@[i] < r@[j],
        forall|i: int|
            0 <= i < r@.len() ==> 1 <= r@[i] <= value && value as int % (r@[i] as int) == 0,
        forall|x: usize| 1 <= x <= value && value as int % (x as int) == 0 ==> r@.contains(x),
        value >= 1 ==> r@.contains(1usize) && r@.contains(value),
{
    let mut r: Vec<usize> = Vec::new();
    for i in 0..value
        invariant
            forall|a: int, b: int| 0 <= a < b < r@.len() ==> r@[a] < r@[b],
            forall|a: int|
                0 <= a < r@.len() ==> 1 <= r@[a] <= i && value as int % (r@[a] as int) == 0,
            forall|x: usize| 1 <= x <= i && value as int % (x as int) == 0 ==> r@.contains(x),
    {
        let x = i + 1;
        if value % x == 0 {
            let ghost prev = r@;
            r.push(x);
            proof {
                assert(r@ == prev.push(x));
                assert forall|y: usize|
                    1 <= y <= i + 1 && value as int % (y as int) == 0 implies r@.contains(
                    y,
                ) by {
                    if y == x {
                        assert(r@[r@.len() - 1] == x);
                    } else {
                        assert(prev.contains(y));
                        let a = choose|a: int| 0 <= a < prev.len() && prev[a] == y;
                        assert(r@[a] == y);
                    }
                }
            }
        }
    }
    proof {
        if value >= 1 {
            assert(value as int % 1int == 0);
            assert(value as int % (value as int) == 0) by {
                vstd::arithmetic::div_mod::lemma_mod_self_0(value as int);
            }
            assert(r@.contains(1usize));
            assert(r@.contains(value));
        }
    }
    r
}

/// Law: a sequence meeting `get_factors`'s contract lists every divisor of
/// `d` exactly once, so its length is the number of positive divisors of `d`.
pub proof fn lemma_factor_count(s: Seq<usize>, d: usize)
    requires
        forall|i: int, j: int| 0 <= i < j < s.len() ==> s[i] < s[j],
        forall|i: int| 0 <= i < s.len() ==> 1 <= s[i] <= d && d as int % (s[i] as int) == 0,
        forall|x: usize| 1 <= x <= d && d as int % (x as int) == 0 ==> s.contains(x),
    ensures
        s.map_values(|x: usize| x as int).to_set() == divisor_set(d as int),
        divisor_set(d as int).finite(),
        s.len() == divisor_set(d as int).len(),
{
    let t = s.map_values(|x: usize| x as int);
    assert(t.no_duplicates()) by {
        assert(forall|i: int, j: int| 0 <= i < j < s.len() ==> t[i] != t[j]);
    }
    assert(t.to_set() =~= divisor_set(d as int)) by {
        assert(forall|y: int| t.contains(y) ==> divisor_set(d as int).contains(y)) by {
            assert(forall|i: int| 0 <= i < t.len() ==> divisor_set(d as int).contains(t[i]));
        }
        assert(forall|y: int| divisor_set(d as int).contains(y) ==> t.contains(y)) by {
            assert forall|y: int| divisor_set(d as int).contains(y) implies t.contains(y) by {
                let x = y as usize;
                assert(1 <= x <= d && d as int % (x as int) == 0);
                assert(s.contains(x));
                let i = choose|i: int| 0 <= i < s.len() && s[i] == x;
                assert(t[i] == y);
            }
        }
    }
    t.unique_seq_to_set();
}

} // verus!
