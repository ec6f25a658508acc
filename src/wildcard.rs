use vstd::prelude::*;

verus! {

/// The budget left after one more segment is taken by a wildcard with
/// budget `w`: the mandatory count goes first, then the optional one.
pub open spec fn consumed(w: (usize, usize)) -> (usize, usize) {
    if w.0 > 0 {
        ((w.0 - 1) as usize, w.1)
    } else if w.1 > 0 {
        (w.0, (w.1 - 1) as usize)
    } else {
        w
    }
}

/// Takes one segment from the wildcard budget `wildcard` and tells whether
/// the budget is used up afterwards.
pub fn consume_wildcard(wildcard: &mut (usize, usize)) -> (exhausted: bool)
    ensures
        *final(wildcard) == consumed(*old(wildcard)),
        exhausted == (final(wildcard).0 == 0 && final(wildcard).1 == 0),
{
    if wildcard.0 > 0 {
        wildcard.0 = wildcard.0 - 1;
    } else if wildcard.1 > 0 {
        wildcard.1 = wildcard.1 - 1;
    } else {
        return true;
    }
    wildcard.0 == 0 && wildcard.1 == 0
}

} // verus!
