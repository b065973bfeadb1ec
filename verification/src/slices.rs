//! Slice indexing: every contiguous window of a given length over the
//! ciphertext, in left-to-right offset order.
use vstd::prelude::*;
use vstd::slice::slice_subrange;

verus! {

/// The ordered sequence of windows of `len` consecutive bytes of `text`:
/// one per offset in `0 ..= text.len() - len`. Empty when the window does
/// not fit.
pub open spec fn slices_of(text: Seq<u8>, len: int) -> Seq<Seq<u8>> {
    if 1 <= len <= text.len() {
        Seq::new((text.len() - len + 1) as nat, |i: int| text.subrange(i, i + len))
    } else {
        Seq::empty()
    }
}

/// Every window of `len` consecutive bytes of `text`, as borrowed views in
/// offset order. A window longer than the text yields an empty sequence
/// rather than a failure.
pub fn get_slices<'a>(text: &'a [u8], len: usize) -> (r: Vec<&'a [u8]>)
    requires
        len >= 1,
    ensures
        r@.len() == slices_of(text@, len as int).len(),
        forall|i: int| 0 <= i < r@.len() ==> r@[i]@ == slices_of(text@, len as int)[i],
{
    let n = text.len();
    let mut r: Vec<&[u8]> = Vec::new();
    if len > n {
        return r;
    }
    let items = n - len + 1;
    for i in 0..items
        invariant
            len >= 1,
            n == text@.len(),
            items == n - len + 1,
            len <= n,
            r@.len() == i,
            forall|j: int| 0 <= j < i ==> r@[j]@ == slices_of(text@, len as int)[j],
    {
        let s = slice_subrange(text, i, i + len);
        r.push(s);
    }
    r
}

} // verus!
