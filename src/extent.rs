//! Narrowing the span of a whole import statement down to its wildcard.
use vstd::prelude::*;

verus! {

/// The byte of the wildcard token.
pub const WILDCARD: u8 = 0x2a;

/// `i` is the position of the first wildcard in `slice`.
pub open spec fn is_first_wildcard(slice: Seq<u8>, i: int) -> bool {
    0 <= i < slice.len() && slice[i] == WILDCARD && forall|j: int| 0 <= j < i ==> slice[j] != WILDCARD
}

/// `slice` holds no wildcard.
pub open spec fn has_no_wildcard(slice: Seq<u8>) -> bool {
    forall|j: int| 0 <= j < slice.len() ==> slice[j] != WILDCARD
}

/// The file offset of the wildcard in `slice`, the text of a span that starts
/// at `span_start`; `None` where the text holds no wildcard (it has changed
/// since it was analysed).
pub fn resolve_extent(span_start: usize, slice: &[u8]) -> (r: Option<usize>)
    requires
        span_start + slice@.len() <= usize::MAX,
    ensures
        match r {
            Some(p) => span_start <= p && is_first_wildcard(slice@, p - span_start),
            None => has_no_wildcard(slice@),
        },
{
    let mut i: usize = 0;
    while i < slice.len()
        invariant
            i <= slice@.len(),
            span_start + slice@.len() <= usize::MAX,
            forall|j: int| 0 <= j < i ==> slice@[j] != WILDCARD,
        decreases slice@.len() - i,
    {
        if slice[i] == WILDCARD {
            return Some(span_start + i);
        }
        i = i + 1;
    }
    None
}

} // verus!
