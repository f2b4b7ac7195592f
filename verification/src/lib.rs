//! A geometric coverage index: a one-dimensional coalescing interval map and,
//! built on top of it, a two-dimensional rectangle coverage index that tracks
//! which parts of a bounded rectangle have been filled and answers containment,
//! largest-empty-block and fit queries about the remaining free space.

use vstd::prelude::*;

pub mod search;
pub mod range_map;
pub mod range_fill;
pub mod fill_rect;

pub use range_map::RangeMap;
pub use range_map::SlotValue;
pub use range_map::MapModel;
pub use range_fill::RangeFill;
pub use fill_rect::FillRect;
pub use fill_rect::Cell;
pub use fill_rect::Column;

verus! {

/// Sum of two machine-size integers.
pub fn add(left: usize, right: usize) -> (r: usize)
    requires
        left + right <= usize::MAX,
    ensures
        r == left + right,
{
    left + right
}

} // verus!
