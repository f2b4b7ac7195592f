//! Ordered-search primitives: given a sorted sequence of boundary keys, count
//! how many keys are less-or-equal, respectively strictly less, than a query
//! key. All positional lookups of the interval maps go through these two
//! functions, so their tie-break rules are the single source of truth for the
//! boundary semantics of the whole crate.

use vstd::prelude::*;

verus! {

/// The sequence is sorted in nondecreasing order.
pub open spec fn sorted(s: Seq<i32>) -> bool {
    forall|i: int, j: int| 0 <= i <= j < s.len() ==> s[i] <= s[j]
}

/// Number of elements of `s` that are `<= x`, as a position: everything
/// strictly before the returned index is `<= x`, everything from it on is
/// `> x`.
pub fn count_le(s: &Vec<i32>, x: i32) -> (r: usize)
    requires
        sorted(s@),
    ensures
        r <= s@.len(),
        forall|i: int| 0 <= i < r ==> s@[i] <= x,
        forall|i: int| r <= i < s@.len() ==> s@[i] > x,
{
    let mut lo: usize = 0;
    let mut hi: usize = s.len();
    while lo < hi
        invariant
            lo <= hi <= s@.len(),
            sorted(s@),
            forall|i: int| 0 <= i < lo ==> s@[i] <= x,
            forall|i: int| hi <= i < s@.len() ==> s@[i] > x,
        decreases hi - lo,
    {
        let mid: usize = lo + (hi - lo) / 2;
        if s[mid] <= x {
            lo = mid + 1;
        } else {
            hi = mid;
        }
    }
    lo
}

/// Number of elements of `s` that are `< x`, as a position: everything
/// strictly before the returned index is `< x`, everything from it on is
/// `>= x`.
pub fn count_lt(s: &Vec<i32>, x: i32) -> (r: usize)
    requires
        sorted(s@),
    ensures
        r <= s@.len(),
        forall|i: int| 0 <= i < r ==> s@[i] < x,
        forall|i: int| r <= i < s@.len() ==> s@[i] >= x,
{
    let mut lo: usize = 0;
    let mut hi: usize = s.len();
    while lo < hi
        invariant
            lo <= hi <= s@.len(),
            sorted(s@),
            forall|i: int| 0 <= i < lo ==> s@[i] < x,
            forall|i: int| hi <= i < s@.len() ==> s@[i] >= x,
        decreases hi - lo,
    {
        let mid: usize = lo + (hi - lo) / 2;
        if s[mid] < x {
            lo = mid + 1;
        } else {
            hi = mid;
        }
    }
    lo
}

} // verus!
