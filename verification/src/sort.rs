use core::cmp::Ordering;
use vstd::prelude::*;

verus! {

/// Orders scored moves by descending score.
pub(crate) fn desc_by_score(a: &(i64, (usize, usize)), b: &(i64, (usize, usize))) -> (r: Ordering)
    ensures
        (r == Ordering::Less) == (a.0 > b.0),
        (r == Ordering::Equal) == (a.0 == b.0),
        (r == Ordering::Greater) == (a.0 < b.0),
{
    if b.0 < a.0 {
        Ordering::Less
    } else if b.0 == a.0 {
        Ordering::Equal
    } else {
        Ordering::Greater
    }
}

/// `slice::sort_unstable_by` with `desc_by_score`: per its documentation the slice
/// ends sorted under the comparator and holds the same elements; the order of equal
/// scores is left open.
#[verifier::external_body]
pub(crate) fn sort_desc_by_score(v: &mut Vec<(i64, (usize, usize))>)
    ensures
        final(v)@.to_multiset() == old(v)@.to_multiset(),
        forall|a: int, b: int| 0 <= a < b < final(v)@.len() ==> final(v)@[a].0 >= final(v)@[b].0,
{
    v.sort_unstable_by(|a, b| desc_by_score(a, b));
}

} // verus!
