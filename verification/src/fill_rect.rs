//! The two-dimensional rectangle coverage index: an interval map over the x
//! axis whose values are interval maps over the y axis holding fill state.
//! It tracks which parts of a bounded rectangle have been filled and answers
//! containment, largest-empty-block and fit queries about the rest.

use vstd::prelude::*;
use crate::range_map::RangeMap;
use crate::range_map::MapModel;
use crate::range_map::SlotValue;
use crate::range_map::at;
use crate::range_map::wf;
use crate::range_map::has_block;
use crate::range_map::block_of;
use crate::range_map::clipped;
use crate::range_map::clipped_from;
use crate::range_map::lemma_clipped_bounds;
use crate::range_map::lemma_clipped_entry;
use crate::range_map::lemma_clipped_find;
use crate::range_map::lemma_at_in_block;
use crate::range_map::lemma_block_iff_span;

verus! {

/// Fill state of one cell of the tracked rectangle: never classified,
/// explicitly unfilled, or filled.
#[derive(Clone, Copy, PartialEq, Eq, Structural, Debug)]
pub enum Cell {
    Unknown,
    Unfilled,
    Filled,
}

impl SlotValue for Cell {
    type Model = Cell;

    open spec fn model(&self) -> Cell {
        *self
    }

    fn veq(&self, other: &Self) -> (r: bool) {
        *self == *other
    }

    fn dup(&self) -> (r: Self) {
        *self
    }
}

/// One vertical strip of the coverage index: either outside the tracked
/// rectangle, or tracked with its own fill map over the y axis.
pub enum Column {
    Outside,
    Inside(RangeMap<Cell>),
}

impl SlotValue for Column {
    type Model = Option<MapModel<Cell>>;

    open spec fn model(&self) -> Option<MapModel<Cell>> {
        match self {
            Column::Outside => None,
            Column::Inside(m) => Some(m.model()),
        }
    }

    fn veq(&self, other: &Self) -> (r: bool) {
        match (self, other) {
            (Column::Outside, Column::Outside) => true,
            (Column::Inside(a), Column::Inside(b)) => a.eq_map(b),
            _ => false,
        }
    }

    fn dup(&self) -> (r: Self) {
        match self {
            Column::Outside => Column::Outside,
            Column::Inside(m) => Column::Inside(m.dup_map()),
        }
    }
}

/// The lesser of two keys.
pub fn min(a: i32, b: i32) -> (r: i32)
    ensures
        r == lo_of(a, b),
{
    if a < b {
        a
    } else {
        b
    }
}

/// The greater of two keys.
pub fn max(a: i32, b: i32) -> (r: i32)
    ensures
        r == hi_of(a, b),
{
    if a < b {
        b
    } else {
        a
    }
}

/// The lesser of two keys.
pub open spec fn lo_of(a: i32, b: i32) -> i32 {
    if a < b {
        a
    } else {
        b
    }
}

/// The greater of two keys.
pub open spec fn hi_of(a: i32, b: i32) -> i32 {
    if a < b {
        b
    } else {
        a
    }
}

/// The model of a whole coverage index: an interval map over x whose values
/// are either absent (outside the tracked rectangle) or y-axis fill maps.
pub open spec fn frect_wf(m: MapModel<Option<MapModel<Cell>>>) -> bool {
    &&& wf(m)
    &&& m.default is None
    &&& forall|i: int|
        0 <= i < m.values.len() ==> (#[trigger] m.values[i]) is Some && wf(m.values[i]->Some_0) && (
        m.values[i]->Some_0).default == Cell::Unknown
}

/// The fill state of the cell `(x, y)`: absent when `x` is outside the
/// tracked rectangle, otherwise the state the column's fill map holds at `y`.
pub open spec fn cell_of(m: MapModel<Option<MapModel<Cell>>>, x: i32, y: i32) -> Option<Cell> {
    match at(m, x) {
        Option::None => None,
        Option::Some(c) => Some(at(c, y)),
    }
}

/// Under the coverage-index invariant, a column is present exactly on the
/// stored span.
#[verifier::spinoff_prover]
#[verifier::rlimit(100)]
proof fn lemma_some_iff_span(m: MapModel<Option<MapModel<Cell>>>, x: i32)
    requires
        frect_wf(m),
    ensures
        at(m, x) is Some <==> (m.values.len() > 0 && m.ranges[0] <= x && x < m.ranges[m.ranges.len() - 1]),
{
    lemma_block_iff_span(m, x);
    if has_block(m, x) {
        let i = block_of(m, x);
        assert(at(m, x) == m.values[i]);
    }
}

/// A write of a present column over keys whose columns were already present
/// preserves the coverage-index invariant.
#[verifier::spinoff_prover]
#[verifier::rlimit(100)]
proof fn lemma_frect_preserve(
    mc: MapModel<Option<MapModel<Cell>>>,
    mn: MapModel<Option<MapModel<Cell>>>,
    cm: MapModel<Cell>,
    lo: i32,
    hi: i32,
)
    requires
        frect_wf(mc),
        wf(mn),
        mn.default == mc.default,
        wf(cm),
        cm.default == Cell::Unknown,
        forall|x: i32|
            at(mn, x) == (if lo <= x < hi {
                Some(cm)
            } else {
                at(mc, x)
            }),
        forall|x: i32| lo <= x < hi ==> at(mc, x) is Some,
    ensures
        frect_wf(mn),
{
    assert forall|x: i32| (at(mn, x) is Some) == (at(mc, x) is Some) by {}
    let n = mn.values.len() as int;
    assert forall|i: int|
        0 <= i < n implies (#[trigger] mn.values[i]) is Some && wf(mn.values[i]->Some_0) && (
    mn.values[i]->Some_0).default == Cell::Unknown by {
        lemma_at_in_block(mn, i, mn.ranges[i]);
        lemma_at_in_block(mn, 0, mn.ranges[0]);
        lemma_at_in_block(mn, n - 1, mn.ranges[n - 1]);
        assert(mn.values[0] is Some);
        assert(mn.values[n - 1] is Some);
        if !(mn.values[i] is Some) {
            // a missing column between two present ones: impossible, the
            // present columns of the old index form one contiguous span
            let x = mn.ranges[i];
            assert(at(mc, mn.ranges[0]) is Some);
            assert(at(mc, mn.ranges[n - 1]) is Some);
            lemma_some_iff_span(mc, mn.ranges[0]);
            lemma_some_iff_span(mc, mn.ranges[n - 1]);
            lemma_some_iff_span(mc, x);
            assert(mn.ranges[0] <= x <= mn.ranges[n - 1]);
            assert(at(mc, x) is Some);
            assert(false);
        }
        if at(mn, mn.ranges[i]) != Some(cm) {
            let x = mn.ranges[i];
            assert(at(mc, x) == at(mn, x));
            assert(at(mc, x) is Some);
            lemma_block_iff_span(mc, x);
            assert(has_block(mc, x)) by {
                if !has_block(mc, x) {
                    assert(at(mc, x) == mc.default);
                }
            }
            assert(at(mc, x) == mc.values[block_of(mc, x)]);
        }
    }
}

/// Under the coverage-index invariant, a present column is well-formed.
#[verifier::spinoff_prover]
#[verifier::rlimit(100)]
proof fn lemma_at_some_wf(m: MapModel<Option<MapModel<Cell>>>, x: i32)
    requires
        frect_wf(m),
        at(m, x) is Some,
    ensures
        wf(at(m, x)->Some_0),
        (at(m, x)->Some_0).default == Cell::Unknown,
{
    lemma_block_iff_span(m, x);
    if has_block(m, x) {
        let i = block_of(m, x);
        assert(at(m, x) == m.values[i]);
    } else {
        assert(at(m, x) == m.default);
    }
}

/// Progress of a fill pass: the columns under the first `j` clamped windows
/// have been filled on `[ny0, ny1)`, everything else still holds its old
/// state.
pub open spec fn fill_progress(
    m0: MapModel<Option<MapModel<Cell>>>,
    mcur: MapModel<Option<MapModel<Cell>>>,
    cl: Seq<(Option<MapModel<Cell>>, i32, i32)>,
    j: int,
    ny0: i32,
    ny1: i32,
) -> bool {
    forall|x: i32, y: i32|
        (#[trigger] cell_of(mcur, x, y)) == (if (exists|jj: int|
            0 <= jj < j && (#[trigger] cl[jj]).1 <= x < cl[jj].2) && ny0 <= y < ny1 && cell_of(
            m0,
            x,
            y,
        ) is Some {
            Some(Cell::Filled)
        } else {
            cell_of(m0, x, y)
        })
}

/// A fill step over a window whose column is absent changes nothing.
#[verifier::spinoff_prover]
#[verifier::rlimit(100)]
proof fn lemma_fill_step_outside(
    m0: MapModel<Option<MapModel<Cell>>>,
    mcur: MapModel<Option<MapModel<Cell>>>,
    nx0: i32,
    nx1: i32,
    ny0: i32,
    ny1: i32,
    j: int,
)
    requires
        frect_wf(m0),
        0 <= j < clipped(m0, nx0, nx1).len(),
        clipped(m0, nx0, nx1)[j].0 is None,
        fill_progress(m0, mcur, clipped(m0, nx0, nx1), j, ny0, ny1),
    ensures
        fill_progress(m0, mcur, clipped(m0, nx0, nx1), j + 1, ny0, ny1),
{
    let cl = clipped(m0, nx0, nx1);
    assert forall|x: i32, y: i32|
        (#[trigger] cell_of(mcur, x, y)) == (if (exists|jj: int|
            0 <= jj < j + 1 && (#[trigger] cl[jj]).1 <= x < cl[jj].2) && ny0 <= y < ny1 && cell_of(
            m0,
            x,
            y,
        ) is Some {
            Some(Cell::Filled)
        } else {
            cell_of(m0, x, y)
        }) by {
        if cl[j].1 <= x < cl[j].2 {
            lemma_clipped_entry(m0, nx0, nx1, 0, j, x);
            assert(at(m0, x) == cl[j].0);
            assert(!(cell_of(m0, x, y) is Some));
        }
        if (exists|jj: int| 0 <= jj < j + 1 && (#[trigger] cl[jj]).1 <= x < cl[jj].2) && !(exists|
            jj: int,
        | 0 <= jj < j && (#[trigger] cl[jj]).1 <= x < cl[jj].2) {
            let jj = choose|jj: int| 0 <= jj < j + 1 && (#[trigger] cl[jj]).1 <= x < cl[jj].2;
            assert(jj == j);
        }
    }
}

/// A fill step over a window whose column is present: after the write-back
/// the window's cells in `[ny0, ny1)` are filled and nothing else changed.
#[verifier::spinoff_prover]
#[verifier::rlimit(100)]
proof fn lemma_fill_step_inside(
    m0: MapModel<Option<MapModel<Cell>>>,
    mc: MapModel<Option<MapModel<Cell>>>,
    mn: MapModel<Option<MapModel<Cell>>>,
    colm: MapModel<Cell>,
    c2m: MapModel<Cell>,
    nx0: i32,
    nx1: i32,
    ny0: i32,
    ny1: i32,
    j: int,
)
    requires
        frect_wf(m0),
        0 <= j < clipped(m0, nx0, nx1).len(),
        clipped(m0, nx0, nx1)[j].0 == Some(colm),
        fill_progress(m0, mc, clipped(m0, nx0, nx1), j, ny0, ny1),
        forall|x: i32|
            at(mn, x) == (if clipped(m0, nx0, nx1)[j].1 <= x < clipped(m0, nx0, nx1)[j].2 {
                Some(c2m)
            } else {
                at(mc, x)
            }),
        forall|y: i32|
            at(c2m, y) == (if ny0 <= y < ny1 {
                Cell::Filled
            } else {
                at(colm, y)
            }),
    ensures
        fill_progress(m0, mn, clipped(m0, nx0, nx1), j + 1, ny0, ny1),
{
    let cl = clipped(m0, nx0, nx1);
    let lx0 = cl[j].1;
    let lx1 = cl[j].2;
    assert forall|x: i32, y: i32|
        (#[trigger] cell_of(mn, x, y)) == (if (exists|jj: int|
            0 <= jj < j + 1 && (#[trigger] cl[jj]).1 <= x < cl[jj].2) && ny0 <= y < ny1 && cell_of(
            m0,
            x,
            y,
        ) is Some {
            Some(Cell::Filled)
        } else {
            cell_of(m0, x, y)
        }) by {
        if lx0 <= x < lx1 {
            lemma_clipped_entry(m0, nx0, nx1, 0, j, x);
            assert(at(m0, x) == Some(colm));
            assert(at(mn, x) == Some(c2m));
            assert(cl[j].1 <= x < cl[j].2);
            assert(cell_of(mn, x, y) == Some(at(c2m, y)));
            assert(cell_of(m0, x, y) == Some(at(colm, y)));
        } else {
            assert(at(mn, x) == at(mc, x));
            assert(cell_of(mn, x, y) == cell_of(mc, x, y));
            if (exists|jj: int| 0 <= jj < j + 1 && (#[trigger] cl[jj]).1 <= x < cl[jj].2) && !(
            exists|jj: int| 0 <= jj < j && (#[trigger] cl[jj]).1 <= x < cl[jj].2) {
                let jj = choose|jj: int| 0 <= jj < j + 1 && (#[trigger] cl[jj]).1 <= x < cl[jj].2;
                assert(jj == j);
                assert(false);
            }
        }
    }
}

/// After every clamped window has been processed, a fill pass has filled
/// exactly the tracked cells of the window rectangle.
#[verifier::spinoff_prover]
#[verifier::rlimit(100)]
proof fn lemma_fill_finish(
    m0: MapModel<Option<MapModel<Cell>>>,
    mend: MapModel<Option<MapModel<Cell>>>,
    nx0: i32,
    nx1: i32,
    ny0: i32,
    ny1: i32,
)
    requires
        frect_wf(m0),
        fill_progress(m0, mend, clipped(m0, nx0, nx1), clipped(m0, nx0, nx1).len() as int, ny0, ny1),
    ensures
        forall|x: i32, y: i32|
            #[trigger] cell_of(mend, x, y) == (if nx0 <= x < nx1 && ny0 <= y < ny1 && cell_of(
                m0,
                x,
                y,
            ) is Some {
                Some(Cell::Filled)
            } else {
                cell_of(m0, x, y)
            }),
{
    let cl = clipped(m0, nx0, nx1);
    let sn = cl.len() as int;
    lemma_clipped_bounds(m0, nx0, nx1, 0);
    assert forall|x: i32, y: i32|
        #[trigger] cell_of(mend, x, y) == (if nx0 <= x < nx1 && ny0 <= y < ny1 && cell_of(
            m0,
            x,
            y,
        ) is Some {
            Some(Cell::Filled)
        } else {
            cell_of(m0, x, y)
        }) by {
        assert(cell_of(mend, x, y) == (if (exists|jj: int|
            0 <= jj < sn && (#[trigger] cl[jj]).1 <= x < cl[jj].2) && ny0 <= y < ny1 && cell_of(
            m0,
            x,
            y,
        ) is Some {
            Some(Cell::Filled)
        } else {
            cell_of(m0, x, y)
        }));
        if exists|jj: int| 0 <= jj < sn && (#[trigger] cl[jj]).1 <= x < cl[jj].2 {
            let jj = choose|jj: int| 0 <= jj < sn && (#[trigger] cl[jj]).1 <= x < cl[jj].2;
            assert(nx0 <= x < nx1);
        } else {
            if nx0 <= x < nx1 && cell_of(m0, x, y) is Some {
                assert(has_block(m0, x)) by {
                    if !has_block(m0, x) {
                        assert(at(m0, x) == m0.default);
                    }
                }
                lemma_clipped_find(m0, nx0, nx1, 0, x);
                assert(false);
            }
        }
    }
}

/// Whether some tracked cell of the window rectangle is explicitly unfilled.
pub open spec fn has_unfilled_cell(
    m: MapModel<Option<MapModel<Cell>>>,
    min_x: i32,
    min_y: i32,
    max_x: i32,
    max_y: i32,
) -> bool {
    exists|x: i32, y: i32|
        min_x <= x < max_x && min_y <= y < max_y && #[trigger] cell_of(m, x, y) == Some(
            Cell::Unfilled,
        )
}

/// The x window is nonempty yet touches no tracked column: the query lies
/// entirely outside the tracked bounding rectangle in the x direction. Such
/// a fully-external query is answered conservatively: `is_fill` reports
/// false. A window that merely straddles the boundary is judged by its
/// tracked cells alone; the absent-column state exists only to detect
/// fully-external queries.
pub open spec fn window_untracked(m: MapModel<Option<MapModel<Cell>>>, min_x: i32, max_x: i32) -> bool {
    min_x < max_x && forall|x: i32| min_x <= x < max_x ==> (#[trigger] at(m, x)) is None
}

/// Once the scan of one present column finds no unfilled part of the window,
/// no cell of that column's clamped window is unfilled.
#[verifier::spinoff_prover]
#[verifier::rlimit(100)]
proof fn lemma_isfill_col(
    m: MapModel<Option<MapModel<Cell>>>,
    colm: MapModel<Cell>,
    nx0: i32,
    nx1: i32,
    min_y: i32,
    max_y: i32,
    j: int,
)
    requires
        frect_wf(m),
        0 <= j < clipped(m, nx0, nx1).len(),
        clipped(m, nx0, nx1)[j].0 == Some(colm),
        forall|y: i32|
            min_y <= y < max_y && (exists|kk: int|
                0 <= kk < clipped(colm, min_y, max_y).len() && (#[trigger] clipped(
                    colm,
                    min_y,
                    max_y,
                )[kk]).1 <= y < clipped(colm, min_y, max_y)[kk].2) ==> #[trigger] at(colm, y)
                != Cell::Unfilled,
        forall|x: i32, y: i32|
            nx0 <= x < nx1 && min_y <= y < max_y && (exists|jj: int|
                0 <= jj < j && (#[trigger] clipped(m, nx0, nx1)[jj]).1 <= x < clipped(
                    m,
                    nx0,
                    nx1,
                )[jj].2) ==> #[trigger] cell_of(m, x, y) != Some(Cell::Unfilled),
    ensures
        forall|x: i32, y: i32|
            nx0 <= x < nx1 && min_y <= y < max_y && (exists|jj: int|
                0 <= jj < j + 1 && (#[trigger] clipped(m, nx0, nx1)[jj]).1 <= x < clipped(
                    m,
                    nx0,
                    nx1,
                )[jj].2) ==> #[trigger] cell_of(m, x, y) != Some(Cell::Unfilled),
{
    let cl = clipped(m, nx0, nx1);
    let rcl = clipped(colm, min_y, max_y);
    lemma_clipped_bounds(m, nx0, nx1, 0);
    lemma_clipped_entry(m, nx0, nx1, 0, j, cl[j].1);
    lemma_at_some_wf(m, cl[j].1);
    assert(wf(colm));
    assert(colm.default == Cell::Unknown);
    assert forall|x: i32, y: i32|
        nx0 <= x < nx1 && min_y <= y < max_y && (exists|jj: int|
            0 <= jj < j + 1 && (#[trigger] cl[jj]).1 <= x < cl[jj].2) implies #[trigger] cell_of(
        m,
        x,
        y,
    ) != Some(Cell::Unfilled) by {
        if cl[j].1 <= x < cl[j].2 {
            lemma_clipped_entry(m, nx0, nx1, 0, j, x);
            assert(at(m, x) == Some(colm));
            if at(colm, y) == Cell::Unfilled {
                assert(has_block(colm, y)) by {
                    if !has_block(colm, y) {
                        assert(at(colm, y) == colm.default);
                    }
                }
                lemma_clipped_find(colm, min_y, max_y, 0, y);
                assert(false);
            }
        } else {
            let jj = choose|jj: int| 0 <= jj < j + 1 && (#[trigger] cl[jj]).1 <= x < cl[jj].2;
            assert(jj < j);
            assert(exists|jj: int| 0 <= jj < j && (#[trigger] cl[jj]).1 <= x < cl[jj].2);
        }
    }
}

/// Every clamped column window of a well-formed coverage index holds a
/// present column.
#[verifier::spinoff_prover]
#[verifier::rlimit(100)]
proof fn lemma_entry_some(m: MapModel<Option<MapModel<Cell>>>, nx0: i32, nx1: i32, j: int)
    requires
        frect_wf(m),
        0 <= j < clipped(m, nx0, nx1).len(),
    ensures
        clipped(m, nx0, nx1)[j].0 is Some,
{
    let cl = clipped(m, nx0, nx1);
    lemma_clipped_bounds(m, nx0, nx1, 0);
    lemma_clipped_entry(m, nx0, nx1, 0, j, cl[j].1);
    lemma_some_iff_span(m, cl[j].1);
    lemma_block_iff_span(m, cl[j].1);
}

/// Once the scan has covered every clamped column window without finding an
/// unfilled cell, the whole window rectangle holds none.
#[verifier::spinoff_prover]
#[verifier::rlimit(100)]
proof fn lemma_isfill_complete(
    m: MapModel<Option<MapModel<Cell>>>,
    min_x: i32,
    min_y: i32,
    max_x: i32,
    max_y: i32,
)
    requires
        frect_wf(m),
        forall|x: i32, y: i32|
            min_x <= x < max_x && min_y <= y < max_y && (exists|jj: int|
                0 <= jj < clipped(m, min_x, max_x).len() && (#[trigger] clipped(m, min_x, max_x)[jj]).1
                    <= x < clipped(m, min_x, max_x)[jj].2) ==> #[trigger] cell_of(m, x, y) != Some(
                Cell::Unfilled,
            ),
    ensures
        !has_unfilled_cell(m, min_x, min_y, max_x, max_y),
{
    assert forall|x: i32, y: i32|
        min_x <= x < max_x && min_y <= y < max_y implies #[trigger] cell_of(m, x, y) != Some(
        Cell::Unfilled,
    ) by {
        if cell_of(m, x, y) == Some(Cell::Unfilled) {
            assert(has_block(m, x)) by {
                if !has_block(m, x) {
                    assert(at(m, x) == m.default);
                }
            }
            lemma_clipped_find(m, min_x, max_x, 0, x);
            let jj = choose|jj: int|
                0 <= jj < clipped_from(m, min_x, max_x, 0).len() && (#[trigger] clipped_from(
                    m,
                    min_x,
                    max_x,
                    0,
                )[jj]).1 <= x < clipped_from(m, min_x, max_x, 0)[jj].2;
            assert(0 <= jj < clipped(m, min_x, max_x).len() && clipped(m, min_x, max_x)[jj].1 <= x
                < clipped(m, min_x, max_x)[jj].2);
            assert(false);
        }
    }
}

/// Filling is monotone: a window that holds no unfilled cell still holds
/// none after any further fill. The first hypothesis is exactly what
/// `fill_rect` ensures of the states before and after a call, for the
/// normalized fill window `[fx0, fx1) x [fy0, fy1)`.
#[verifier::spinoff_prover]
#[verifier::rlimit(100)]
pub proof fn lemma_fill_monotone(
    m0: MapModel<Option<MapModel<Cell>>>,
    m1: MapModel<Option<MapModel<Cell>>>,
    fx0: i32,
    fy0: i32,
    fx1: i32,
    fy1: i32,
    qx0: i32,
    qy0: i32,
    qx1: i32,
    qy1: i32,
)
    requires
        forall|x: i32, y: i32|
            #[trigger] cell_of(m1, x, y) == (if fx0 <= x < fx1 && fy0 <= y < fy1 && cell_of(
                m0,
                x,
                y,
            ) is Some {
                Some(Cell::Filled)
            } else {
                cell_of(m0, x, y)
            }),
        !has_unfilled_cell(m0, qx0, qy0, qx1, qy1),
    ensures
        !has_unfilled_cell(m1, qx0, qy0, qx1, qy1),
{
    assert forall|x: i32, y: i32|
        qx0 <= x < qx1 && qy0 <= y < qy1 implies #[trigger] cell_of(m1, x, y) != Some(
        Cell::Unfilled,
    ) by {
        assert(cell_of(m0, x, y) != Some(Cell::Unfilled));
    }
}

/// Filling covers: after filling the normalized window
/// `[fx0, fx1) x [fy0, fy1)`, every sub-rectangle of that window holds no
/// unfilled cell.
#[verifier::spinoff_prover]
#[verifier::rlimit(100)]
pub proof fn lemma_fill_covers(
    m0: MapModel<Option<MapModel<Cell>>>,
    m1: MapModel<Option<MapModel<Cell>>>,
    fx0: i32,
    fy0: i32,
    fx1: i32,
    fy1: i32,
    qx0: i32,
    qy0: i32,
    qx1: i32,
    qy1: i32,
)
    requires
        forall|x: i32, y: i32|
            #[trigger] cell_of(m1, x, y) == (if fx0 <= x < fx1 && fy0 <= y < fy1 && cell_of(
                m0,
                x,
                y,
            ) is Some {
                Some(Cell::Filled)
            } else {
                cell_of(m0, x, y)
            }),
        fx0 <= qx0,
        qx1 <= fx1,
        fy0 <= qy0,
        qy1 <= fy1,
    ensures
        !has_unfilled_cell(m1, qx0, qy0, qx1, qy1),
{
    assert forall|x: i32, y: i32|
        qx0 <= x < qx1 && qy0 <= y < qy1 implies #[trigger] cell_of(m1, x, y) != Some(
        Cell::Unfilled,
    ) by {
        assert(cell_of(m1, x, y) == (if fx0 <= x < fx1 && fy0 <= y < fy1 && cell_of(
            m0,
            x,
            y,
        ) is Some {
            Some(Cell::Filled)
        } else {
            cell_of(m0, x, y)
        }));
    }
}

/// The open rectangles of one tracked column over `[x0, x1)`: one rectangle
/// for each stored y range holding the unfilled state, from range `k` on.
pub open spec fn col_open_rects(colm: MapModel<Cell>, x0: i32, x1: i32, k: int) -> Seq<
    (i32, i32, i32, i32),
>
    decreases colm.values.len() - k,
{
    if k < 0 || k >= colm.values.len() {
        Seq::empty()
    } else {
        let rest = col_open_rects(colm, x0, x1, k + 1);
        if colm.values[k] == Cell::Unfilled && x0 < x1 && colm.ranges[k] < colm.ranges[k + 1] {
            seq![(x0, colm.ranges[k], x1, colm.ranges[k + 1])] + rest
        } else {
            rest
        }
    }
}

/// The open rectangles of the whole index from column `j` on: the stored
/// `(x range, y range)` pairs whose value is the unfilled state.
pub open spec fn open_rects_spec(m: MapModel<Option<MapModel<Cell>>>, j: int) -> Seq<
    (i32, i32, i32, i32),
>
    decreases m.values.len() - j,
{
    if j < 0 || j >= m.values.len() {
        Seq::empty()
    } else {
        let rest = open_rects_spec(m, j + 1);
        match m.values[j] {
            Option::None => rest,
            Option::Some(colm) => col_open_rects(colm, m.ranges[j], m.ranges[j + 1], 0) + rest,
        }
    }
}

/// One candidate block of a window scan: the `j`-th clamped column window
/// paired with either the whole query height (for an absent column) or the
/// `k`-th clamped unfilled y range of the column, with its clamped width `w`
/// and height `h`.
pub open spec fn unfilled_cand(
    m: MapModel<Option<MapModel<Cell>>>,
    qx0: i32,
    qy0: i32,
    qx1: i32,
    qy1: i32,
    j: int,
    k: int,
    w: int,
    h: int,
) -> bool {
    let cl = clipped(m, qx0, qx1);
    &&& 0 <= j < cl.len()
    &&& w == cl[j].2 - cl[j].1
    &&& match cl[j].0 {
        Option::None => k == 0 && h == qy1 - qy0,
        Option::Some(colm) => 0 <= k < clipped(colm, qy0, qy1).len() && clipped(colm, qy0, qy1)[k].0
            == Cell::Unfilled && h == clipped(colm, qy0, qy1)[k].2 - clipped(colm, qy0, qy1)[k].1,
    }
}

/// A rectangle coverage index: tracks which parts of a bounding rectangle
/// have been filled. Created fully unfilled; `fill_rect` moves cells from
/// unfilled toward filled and never back.
pub struct FillRect {
    map: RangeMap<Column>,
}

impl FillRect {
    /// The mathematical model of the index.
    pub closed spec fn model(&self) -> MapModel<Option<MapModel<Cell>>> {
        self.map.model()
    }

    /// The representation invariant.
    pub open spec fn inv(&self) -> bool {
        frect_wf(self.model())
    }

    /// Build an index over the bounding rectangle
    /// `[min_x, max_x) x [min_y, max_y)`, entirely unfilled.
    #[verifier::spinoff_prover]
    #[verifier::rlimit(100)]
    pub fn from(min_x: i32, min_y: i32, max_x: i32, max_y: i32) -> (r: Self)
        requires
            min_x <= max_x,
            min_y <= max_y,
        ensures
            r.inv(),
            forall|x: i32, y: i32|
                #[trigger] cell_of(r.model(), x, y) == (if min_x <= x < max_x {
                    Some(
                        if min_y <= y < max_y {
                            Cell::Unfilled
                        } else {
                            Cell::Unknown
                        },
                    )
                } else {
                    None::<Cell>
                }),
    {
        let mut vertical_map: RangeMap<Cell> = RangeMap::from(Cell::Unknown);
        let ghost col0 = vertical_map.model();
        vertical_map.set(Cell::Unfilled, min_y, max_y);
        let ghost colm = vertical_map.model();
        let mut map: RangeMap<Column> = RangeMap::from(Column::Outside);
        let ghost m_empty = map.model();
        map.set(Column::Inside(vertical_map), min_x, max_x);
        let r = Self { map };
        proof {
            let m = r.model();
            assert forall|x: i32, y: i32|
                #[trigger] cell_of(m, x, y) == (if min_x <= x < max_x {
                    Some(
                        if min_y <= y < max_y {
                            Cell::Unfilled
                        } else {
                            Cell::Unknown
                        },
                    )
                } else {
                    None::<Cell>
                }) by {
                assert(at(m, x) == (if min_x <= x < max_x {
                    Some(colm)
                } else {
                    at(m_empty, x)
                }));
                assert(at(m_empty, x) == None::<MapModel<Cell>>) by {
                    assert(!has_block(m_empty, x));
                }
                if min_x <= x < max_x {
                    assert(at(colm, y) == (if min_y <= y < max_y {
                        Cell::Unfilled
                    } else {
                        at(col0, y)
                    }));
                    assert(at(col0, y) == Cell::Unknown) by {
                        assert(!has_block(col0, y));
                    }
                }
            }
            assert(colm.default == Cell::Unknown);
            assert forall|i: int|
                0 <= i < m.values.len() implies (#[trigger] m.values[i]) is Some && wf(
                m.values[i]->Some_0,
            ) && (m.values[i]->Some_0).default == Cell::Unknown by {
                let n = m.values.len() as int;
                lemma_at_in_block(m, i, m.ranges[i]);
                assert(at(m, m.ranges[i]) == (if min_x <= m.ranges[i] < max_x {
                    Some(colm)
                } else {
                    at(m_empty, m.ranges[i])
                }));
                assert(at(m_empty, m.ranges[i]) == None::<MapModel<Cell>>) by {
                    assert(!has_block(m_empty, m.ranges[i]));
                }
                if !(m.values[i] is Some) {
                    lemma_at_in_block(m, 0, m.ranges[0]);
                    lemma_at_in_block(m, n - 1, m.ranges[n - 1]);
                    assert(at(m_empty, m.ranges[0]) == None::<MapModel<Cell>>) by {
                        assert(!has_block(m_empty, m.ranges[0]));
                    }
                    assert(at(m_empty, m.ranges[n - 1]) == None::<MapModel<Cell>>) by {
                        assert(!has_block(m_empty, m.ranges[n - 1]));
                    }
                    assert(min_x <= m.ranges[0] < max_x);
                    assert(min_x <= m.ranges[n - 1] < max_x);
                    assert(m.ranges[0] <= m.ranges[i] <= m.ranges[n - 1]);
                    assert(false);
                }
            }
        }
        r
    }

    /// Whether the whole window rectangle is filled: false when the nonempty
    /// x window lies entirely outside the tracked columns (a fully-external
    /// query is answered conservatively), and otherwise false exactly when
    /// some tracked cell of `[min_x, max_x) x [min_y, max_y)` is explicitly
    /// unfilled. Never-classified cells and the untracked parts of a window
    /// that merely straddles the boundary count as filled.
    #[verifier::spinoff_prover]
    #[verifier::rlimit(100)]
    pub fn is_fill(&self, min_x: i32, min_y: i32, max_x: i32, max_y: i32) -> (r: bool)
        requires
            self.inv(),
        ensures
            r == (!window_untracked(self.model(), min_x, max_x) && !has_unfilled_cell(
                self.model(),
                min_x,
                min_y,
                max_x,
                max_y,
            )),
    {
        let ghost m = self.model();
        let cols = self.map.data_range(min_x, max_x);
        let ghost cl = clipped(m, min_x, max_x);
        let n = cols.len();
        if min_x < max_x && n == 0 {
            proof {
                assert forall|x: i32| min_x <= x < max_x implies (#[trigger] at(m, x)) is None by {
                    if at(m, x) is Some {
                        assert(has_block(m, x)) by {
                            if !has_block(m, x) {
                                assert(at(m, x) == m.default);
                            }
                        }
                        lemma_clipped_find(m, min_x, max_x, 0, x);
                        let jj = choose|jj: int|
                            0 <= jj < clipped_from(m, min_x, max_x, 0).len() && (
                            #[trigger] clipped_from(m, min_x, max_x, 0)[jj]).1 <= x < clipped_from(
                                m,
                                min_x,
                                max_x,
                                0,
                            )[jj].2;
                        assert(0 <= jj < cl.len());
                        assert(false);
                    }
                }
                assert(window_untracked(m, min_x, max_x));
            }
            return false;
        }
        let mut i: usize = 0;
        while i < n
            invariant
                i <= n,
                n == cols@.len(),
                self.inv(),
                m == self.model(),
                cl == clipped(m, min_x, max_x),
                n == cl.len(),
                forall|jj: int|
                    0 <= jj < n ==> (#[trigger] cols@[jj]).0.model() == cl[jj].0 && cols@[jj].1
                        == cl[jj].1 && cols@[jj].2 == cl[jj].2,
                forall|x: i32, y: i32|
                    min_x <= x < max_x && min_y <= y < max_y && (exists|jj: int|
                        0 <= jj < i && (#[trigger] cl[jj]).1 <= x < cl[jj].2)
                        ==> #[trigger] cell_of(m, x, y) != Some(Cell::Unfilled),
            decreases n - i,
        {
            match &cols[i].0 {
                Column::Outside => {
                    proof {
                        lemma_entry_some(m, min_x, max_x, i as int);
                        assert(false);
                    }
                    return false;
                },
                Column::Inside(col) => {
                    proof {
                        lemma_clipped_bounds(m, min_x, max_x, 0);
                        lemma_clipped_entry(m, min_x, max_x, 0, i as int, cols[i as int].1);
                        lemma_at_some_wf(m, cols[i as int].1);
                    }
                    let ghost colm = col.model();
                    let rows = col.data_range(min_y, max_y);
                    let ghost rcl = clipped(colm, min_y, max_y);
                    let rn = rows.len();
                    let mut k: usize = 0;
                    while k < rn
                        invariant
                            k <= rn,
                            rn == rows@.len(),
                            wf(colm),
                            colm.default == Cell::Unknown,
                            rcl == clipped(colm, min_y, max_y),
                            rn == rcl.len(),
                            self.inv(),
                            m == self.model(),
                            cl == clipped(m, min_x, max_x),
                            0 <= i < cl.len(),
                            cl[i as int].0 == Some(colm),
                            forall|kk: int|
                                0 <= kk < rn ==> (#[trigger] rows@[kk]).0.model() == rcl[kk].0
                                    && rows@[kk].1 == rcl[kk].1 && rows@[kk].2 == rcl[kk].2,
                            forall|y: i32|
                                min_y <= y < max_y && (exists|kk: int|
                                    0 <= kk < k && (#[trigger] rcl[kk]).1 <= y < rcl[kk].2)
                                    ==> #[trigger] at(colm, y) != Cell::Unfilled,
                        decreases rn - k,
                    {
                        let state = rows[k].0;
                        if state == Cell::Unfilled {
                            proof {
                                lemma_clipped_bounds(m, min_x, max_x, 0);
                                lemma_clipped_bounds(colm, min_y, max_y, 0);
                                let xw = cl[i as int].1;
                                let yw = rcl[k as int].1;
                                lemma_clipped_entry(m, min_x, max_x, 0, i as int, xw);
                                lemma_clipped_entry(colm, min_y, max_y, 0, k as int, yw);
                                assert(at(m, xw) == Some(colm));
                                assert(at(colm, yw) == Cell::Unfilled);
                                assert(min_x <= xw < max_x && min_y <= yw < max_y);
                                assert(cell_of(m, xw, yw) == Some(Cell::Unfilled));
                            }
                            return false;
                        }
                        proof {
                            lemma_clipped_bounds(colm, min_y, max_y, 0);
                            assert forall|y: i32|
                                min_y <= y < max_y && (exists|kk: int|
                                    0 <= kk < k + 1 && (#[trigger] rcl[kk]).1 <= y < rcl[kk].2)
                                    implies #[trigger] at(colm, y) != Cell::Unfilled by {
                                if rcl[k as int].1 <= y < rcl[k as int].2 {
                                    lemma_clipped_entry(colm, min_y, max_y, 0, k as int, y);
                                } else {
                                    if (exists|kk: int|
                                        0 <= kk < k + 1 && (#[trigger] rcl[kk]).1 <= y
                                            < rcl[kk].2) {
                                        let kk = choose|kk: int|
                                            0 <= kk < k + 1 && (#[trigger] rcl[kk]).1 <= y
                                                < rcl[kk].2;
                                        assert(kk < k);
                                    }
                                }
                            }
                        }
                        k += 1;
                    }
                    proof {
                        lemma_isfill_col(m, colm, min_x, max_x, min_y, max_y, i as int);
                    }
                },
            }
            i += 1;
        }
        proof {
            lemma_isfill_complete(m, min_x, min_y, max_x, max_y);
            if min_x < max_x {
                lemma_clipped_bounds(m, min_x, max_x, 0);
                lemma_entry_some(m, min_x, max_x, 0);
                lemma_clipped_entry(m, min_x, max_x, 0, 0, cl[0].1);
                assert(at(m, cl[0].1) is Some);
                assert(min_x <= cl[0].1 < max_x);
                assert(!window_untracked(m, min_x, max_x));
            }
        }
        true
    }

    /// Whether the single cell `(x, y)` counts as filled: true unless the
    /// cell is tracked and explicitly unfilled.
    pub fn is_fill_point(&self, x: i32, y: i32) -> (r: bool)
        requires
            self.inv(),
        ensures
            r == (cell_of(self.model(), x, y) != Some(Cell::Unfilled)),
    {
        match self.map.value(x) {
            Column::Outside => true,
            Column::Inside(y_range) => {
                let c = y_range.value(y);
                proof {
                    lemma_at_some_wf(self.model(), x);
                }
                match c {
                    Cell::Unfilled => false,
                    _ => true,
                }
            },
        }
    }

    /// As `is_fill`, after normalizing reversed axes and expanding the window
    /// by the given clearance on each side.
    pub fn is_fill_padding(
        &self,
        min_x: i32,
        min_y: i32,
        max_x: i32,
        max_y: i32,
        x_padding: i32,
        y_padding: i32,
    ) -> (r: bool)
        requires
            self.inv(),
            i32::MIN <= lo_of(min_x, max_x) - x_padding <= i32::MAX,
            i32::MIN <= hi_of(min_x, max_x) + x_padding <= i32::MAX,
            i32::MIN <= lo_of(min_y, max_y) - y_padding <= i32::MAX,
            i32::MIN <= hi_of(min_y, max_y) + y_padding <= i32::MAX,
        ensures
            r == (!window_untracked(
                self.model(),
                (lo_of(min_x, max_x) - x_padding) as i32,
                (hi_of(min_x, max_x) + x_padding) as i32,
            ) && !has_unfilled_cell(
                self.model(),
                (lo_of(min_x, max_x) - x_padding) as i32,
                (lo_of(min_y, max_y) - y_padding) as i32,
                (hi_of(min_x, max_x) + x_padding) as i32,
                (hi_of(min_y, max_y) + y_padding) as i32,
            )),
    {
        let nx0 = min(min_x, max_x);
        let nx1 = max(min_x, max_x);
        let ny0 = min(min_y, max_y);
        let ny1 = max(min_y, max_y);
        self.is_fill(nx0 - x_padding, ny0 - y_padding, nx1 + x_padding, ny1 + y_padding)
    }

    /// The y-axis breakpoints of the column holding `x`, if that column is
    /// tracked.
    pub fn get_ys(&self, x: i32) -> (r: Option<&Vec<i32>>)
        requires
            self.inv(),
        ensures
            match at(self.model(), x) {
                Option::None => r is None,
                Option::Some(c) => r is Some && r->Some_0@ == c.ranges,
            },
    {
        match self.map.value(x) {
            Column::Outside => None,
            Column::Inside(range) => Some(range.get_ranges()),
        }
    }

    /// Enumerate all maximal stored rectangles that are explicitly unfilled
    /// and have positive area, as `(min x, min y, max x, max y)` quadruples in
    /// column order.
    #[verifier::spinoff_prover]
    #[verifier::rlimit(100)]
    pub fn get_open_rects(&self) -> (r: Vec<(i32, i32, i32, i32)>)
        requires
            self.inv(),
        ensures
            r@ == open_rects_spec(self.model(), 0),
    {
        let ghost m = self.model();
        let mut r: Vec<(i32, i32, i32, i32)> = Vec::new();
        let cols = self.map.data();
        let n = cols.len();
        let mut j: usize = 0;
        while j < n
            invariant
                j <= n,
                n == cols@.len(),
                self.inv(),
                m == self.model(),
                n == m.values.len(),
                forall|jj: int|
                    0 <= jj < n ==> (#[trigger] cols@[jj]).0.model() == m.values[jj] && cols@[jj].1
                        == m.ranges[jj] && cols@[jj].2 == m.ranges[jj + 1],
                open_rects_spec(m, 0) =~= r@ + open_rects_spec(m, j as int),
            decreases n - j,
        {
            let x0 = cols[j].1;
            let x1 = cols[j].2;
            match &cols[j].0 {
                Column::Outside => {
                    proof {
                        assert(open_rects_spec(m, 0) =~= r@ + open_rects_spec(m, j as int + 1));
                    }
                },
                Column::Inside(col) => {
                    let ghost colm = col.model();
                    let rows = col.data();
                    let rn = rows.len();
                    let mut k: usize = 0;
                    while k < rn
                        invariant
                            k <= rn,
                            rn == rows@.len(),
                            self.inv(),
                            m == self.model(),
                            n == m.values.len(),
                            0 <= j < n,
                            colm == m.values[j as int]->Some_0,
                            m.values[j as int] == Some(colm),
                            x0 == m.ranges[j as int],
                            x1 == m.ranges[j as int + 1],
                            rn == colm.values.len(),
                            wf(colm),
                            forall|kk: int|
                                0 <= kk < rn ==> (#[trigger] rows@[kk]).0.model() == colm.values[kk]
                                    && rows@[kk].1 == colm.ranges[kk] && rows@[kk].2
                                    == colm.ranges[kk + 1],
                            open_rects_spec(m, 0) =~= r@ + col_open_rects(colm, x0, x1, k as int)
                                + open_rects_spec(m, j as int + 1),
                        decreases rn - k,
                    {
                        let state = rows[k].0;
                        let y0 = rows[k].1;
                        let y1 = rows[k].2;
                        if state == Cell::Unfilled && x0 < x1 && y0 < y1 {
                            r.push((x0, y0, x1, y1));
                        }
                        proof {
                            assert(open_rects_spec(m, 0) =~= r@ + col_open_rects(
                                colm,
                                x0,
                                x1,
                                k as int + 1,
                            ) + open_rects_spec(m, j as int + 1));
                        }
                        k += 1;
                    }
                    proof {
                        assert(col_open_rects(colm, x0, x1, rn as int) =~= Seq::empty());
                        assert(open_rects_spec(m, 0) =~= r@ + open_rects_spec(m, j as int + 1));
                    }
                },
            }
            j += 1;
        }
        proof {
            assert(open_rects_spec(m, n as int) =~= Seq::empty());
            assert(r@ =~= open_rects_spec(m, 0));
        }
        r
    }

    /// The area of the largest single unfilled block clipped to the window
    /// `[min_x, max_x) x [min_y, max_y)`: the maximum over all candidate
    /// blocks of the scan, and zero when nothing unfilled is touched.
    #[verifier::spinoff_prover]
    #[verifier::rlimit(100)]
    pub fn biggest_unfilled_area_block(
        &self,
        min_x: i32,
        min_y: i32,
        max_x: i32,
        max_y: i32,
    ) -> (r: i128)
        requires
            self.inv(),
        ensures
            r >= 0,
            forall|j: int, k: int, w: int, h: int|
                unfilled_cand(self.model(), min_x, min_y, max_x, max_y, j, k, w, h) ==> w * h <= r,
            r > 0 ==> exists|j: int, k: int, w: int, h: int|
                unfilled_cand(self.model(), min_x, min_y, max_x, max_y, j, k, w, h) && w * h == r,
    {
        let ghost m = self.model();
        let mut best: i128 = 0;
        let cols = self.map.data_range(min_x, max_x);
        let ghost cl = clipped(m, min_x, max_x);
        let n = cols.len();
        let mut j: usize = 0;
        while j < n
            invariant
                j <= n,
                n == cols@.len(),
                self.inv(),
                m == self.model(),
                cl == clipped(m, min_x, max_x),
                n == cl.len(),
                forall|jj: int|
                    0 <= jj < n ==> (#[trigger] cols@[jj]).0.model() == cl[jj].0 && cols@[jj].1
                        == cl[jj].1 && cols@[jj].2 == cl[jj].2,
                best >= 0,
                forall|jj: int, k: int, w: int, h: int|
                    unfilled_cand(m, min_x, min_y, max_x, max_y, jj, k, w, h) && jj < j ==> w * h
                        <= best,
                best > 0 ==> exists|jj: int, k: int, w: int, h: int|
                    unfilled_cand(m, min_x, min_y, max_x, max_y, jj, k, w, h) && w * h == best,
            decreases n - j,
        {
            let x0 = cols[j].1;
            let x1 = cols[j].2;
            let w: i128 = (x1 as i128) - (x0 as i128);
            match &cols[j].0 {
                Column::Outside => {
                    proof {
                        lemma_entry_some(m, min_x, max_x, j as int);
                        assert(false);
                    }
                },
                Column::Inside(col) => {
                    let ghost colm = col.model();
                    proof {
                        lemma_clipped_bounds(m, min_x, max_x, 0);
                        lemma_clipped_entry(m, min_x, max_x, 0, j as int, x0);
                        lemma_at_some_wf(m, x0);
                    }
                    let rows = col.data_range(min_y, max_y);
                    let ghost rcl = clipped(colm, min_y, max_y);
                    let rn = rows.len();
                    let mut k: usize = 0;
                    while k < rn
                        invariant
                            k <= rn,
                            rn == rows@.len(),
                            self.inv(),
                            m == self.model(),
                            cl == clipped(m, min_x, max_x),
                            n == cl.len(),
                            0 <= j < n,
                            cl[j as int].0 == Some(colm),
                            wf(colm),
                            rcl == clipped(colm, min_y, max_y),
                            rn == rcl.len(),
                            x0 == cl[j as int].1,
                            x1 == cl[j as int].2,
                            w == x1 as int - x0 as int,
                            forall|kk: int|
                                0 <= kk < rn ==> (#[trigger] rows@[kk]).0.model() == rcl[kk].0
                                    && rows@[kk].1 == rcl[kk].1 && rows@[kk].2 == rcl[kk].2,
                            best >= 0,
                            forall|jj: int, kx: int, wx: int, hx: int|
                                unfilled_cand(m, min_x, min_y, max_x, max_y, jj, kx, wx, hx) && jj
                                    < j ==> wx * hx <= best,
                            forall|kx: int, wx: int, hx: int|
                                unfilled_cand(m, min_x, min_y, max_x, max_y, j as int, kx, wx, hx)
                                    && kx < k ==> wx * hx <= best,
                            best > 0 ==> exists|jj: int, kx: int, wx: int, hx: int|
                                unfilled_cand(m, min_x, min_y, max_x, max_y, jj, kx, wx, hx) && wx
                                    * hx == best,
                        decreases rn - k,
                    {
                        let state = rows[k].0;
                        if state == Cell::Unfilled {
                            let y0 = rows[k].1;
                            let y1 = rows[k].2;
                            let h: i128 = (y1 as i128) - (y0 as i128);
                            proof {
                                lemma_clipped_bounds(m, min_x, max_x, 0);
                                lemma_clipped_bounds(colm, min_y, max_y, 0);
                                assert(x0 < x1 && y0 < y1);
                                assert(w * h < 0x7fffffffffffffffffffffffffffffffi128 && w * h
                                    > -0x7fffffffffffffffffffffffffffffffi128) by (nonlinear_arith)
                                    requires
                                        0 <= w <= 0x100000000i128,
                                        0 <= h <= 0x100000000i128,
                                ;
                            }
                            let area: i128 = w * h;
                            if best < area {
                                best = area;
                                proof {
                                    assert(unfilled_cand(
                                        m,
                                        min_x,
                                        min_y,
                                        max_x,
                                        max_y,
                                        j as int,
                                        k as int,
                                        w as int,
                                        h as int,
                                    ));
                                }
                            }
                        }
                        k += 1;
                    }
                },
            }
            proof {
                assert forall|jj: int, kx: int, wx: int, hx: int|
                    unfilled_cand(m, min_x, min_y, max_x, max_y, jj, kx, wx, hx) && jj < j + 1
                        implies wx * hx <= best by {}
            }
            j += 1;
        }
        proof {
            assert forall|jj: int, kx: int, wx: int, hx: int|
                unfilled_cand(m, min_x, min_y, max_x, max_y, jj, kx, wx, hx) implies wx * hx
                <= best by {}
        }
        best
    }

    /// As `biggest_unfilled_area_block`, after normalizing reversed axes and
    /// expanding the window by the given clearance on each side.
    pub fn biggest_unfilled_area_block_padding(
        &self,
        min_x: i32,
        min_y: i32,
        max_x: i32,
        max_y: i32,
        x_padding: i32,
        y_padding: i32,
    ) -> (r: i128)
        requires
            self.inv(),
            i32::MIN <= lo_of(min_x, max_x) - x_padding <= i32::MAX,
            i32::MIN <= hi_of(min_x, max_x) + x_padding <= i32::MAX,
            i32::MIN <= lo_of(min_y, max_y) - y_padding <= i32::MAX,
            i32::MIN <= hi_of(min_y, max_y) + y_padding <= i32::MAX,
        ensures
            r >= 0,
            forall|j: int, k: int, w: int, h: int|
                #[trigger] unfilled_cand(
                    self.model(),
                    (lo_of(min_x, max_x) - x_padding) as i32,
                    (lo_of(min_y, max_y) - y_padding) as i32,
                    (hi_of(min_x, max_x) + x_padding) as i32,
                    (hi_of(min_y, max_y) + y_padding) as i32,
                    j,
                    k,
                    w,
                    h,
                ) ==> w * h <= r,
            r > 0 ==> exists|j: int, k: int, w: int, h: int|
                #[trigger] unfilled_cand(
                    self.model(),
                    (lo_of(min_x, max_x) - x_padding) as i32,
                    (lo_of(min_y, max_y) - y_padding) as i32,
                    (hi_of(min_x, max_x) + x_padding) as i32,
                    (hi_of(min_y, max_y) + y_padding) as i32,
                    j,
                    k,
                    w,
                    h,
                ) && w * h == r,
    {
        let nx0 = min(min_x, max_x);
        let nx1 = max(min_x, max_x);
        let ny0 = min(min_y, max_y);
        let ny1 = max(min_y, max_y);
        self.biggest_unfilled_area_block(
            nx0 - x_padding,
            ny0 - y_padding,
            nx1 + x_padding,
            ny1 + y_padding,
        )
    }

    /// Whether some candidate block of the window scan strictly exceeds the
    /// requested width and height in both dimensions.
    #[verifier::spinoff_prover]
    #[verifier::rlimit(100)]
    pub fn contains_unfilled_rect_width_height(
        &self,
        min_x: i32,
        min_y: i32,
        max_x: i32,
        max_y: i32,
        width: i32,
        height: i32,
    ) -> (r: bool)
        requires
            self.inv(),
        ensures
            r == exists|j: int, k: int, w: int, h: int|
                unfilled_cand(self.model(), min_x, min_y, max_x, max_y, j, k, w, h) && w > width
                    && h > height,
    {
        let ghost m = self.model();
        let cols = self.map.data_range(min_x, max_x);
        let ghost cl = clipped(m, min_x, max_x);
        let n = cols.len();
        let mut j: usize = 0;
        while j < n
            invariant
                j <= n,
                n == cols@.len(),
                self.inv(),
                m == self.model(),
                cl == clipped(m, min_x, max_x),
                n == cl.len(),
                forall|jj: int|
                    0 <= jj < n ==> (#[trigger] cols@[jj]).0.model() == cl[jj].0 && cols@[jj].1
                        == cl[jj].1 && cols@[jj].2 == cl[jj].2,
                forall|jj: int, k: int, w: int, h: int|
                    unfilled_cand(m, min_x, min_y, max_x, max_y, jj, k, w, h) && jj < j ==> !(w
                        > width && h > height),
            decreases n - j,
        {
            let x0 = cols[j].1;
            let x1 = cols[j].2;
            let w: i64 = (x1 as i64) - (x0 as i64);
            match &cols[j].0 {
                Column::Outside => {
                    proof {
                        lemma_entry_some(m, min_x, max_x, j as int);
                        assert(false);
                    }
                },
                Column::Inside(col) => {
                    let ghost colm = col.model();
                    proof {
                        lemma_clipped_bounds(m, min_x, max_x, 0);
                        lemma_clipped_entry(m, min_x, max_x, 0, j as int, x0);
                        lemma_at_some_wf(m, x0);
                    }
                    let rows = col.data_range(min_y, max_y);
                    let ghost rcl = clipped(colm, min_y, max_y);
                    let rn = rows.len();
                    let mut k: usize = 0;
                    while k < rn
                        invariant
                            k <= rn,
                            rn == rows@.len(),
                            self.inv(),
                            m == self.model(),
                            cl == clipped(m, min_x, max_x),
                            n == cl.len(),
                            0 <= j < n,
                            cl[j as int].0 == Some(colm),
                            wf(colm),
                            rcl == clipped(colm, min_y, max_y),
                            rn == rcl.len(),
                            x0 == cl[j as int].1,
                            x1 == cl[j as int].2,
                            w == x1 as int - x0 as int,
                            forall|kk: int|
                                0 <= kk < rn ==> (#[trigger] rows@[kk]).0.model() == rcl[kk].0
                                    && rows@[kk].1 == rcl[kk].1 && rows@[kk].2 == rcl[kk].2,
                            forall|jj: int, kx: int, wx: int, hx: int|
                                unfilled_cand(m, min_x, min_y, max_x, max_y, jj, kx, wx, hx) && jj
                                    < j ==> !(wx > width && hx > height),
                            forall|kx: int, wx: int, hx: int|
                                unfilled_cand(m, min_x, min_y, max_x, max_y, j as int, kx, wx, hx)
                                    && kx < k ==> !(wx > width && hx > height),
                        decreases rn - k,
                    {
                        let state = rows[k].0;
                        if state == Cell::Unfilled {
                            let y0 = rows[k].1;
                            let y1 = rows[k].2;
                            let h: i64 = (y1 as i64) - (y0 as i64);
                            if w > (width as i64) && h > (height as i64) {
                                proof {
                                    assert(unfilled_cand(
                                        m,
                                        min_x,
                                        min_y,
                                        max_x,
                                        max_y,
                                        j as int,
                                        k as int,
                                        w as int,
                                        h as int,
                                    ));
                                }
                                return true;
                            }
                        }
                        k += 1;
                    }
                },
            }
            proof {
                assert forall|jj: int, kx: int, wx: int, hx: int|
                    unfilled_cand(m, min_x, min_y, max_x, max_y, jj, kx, wx, hx) && jj < j + 1
                        implies !(wx > width && hx > height) by {}
            }
            j += 1;
        }
        proof {
            assert forall|jj: int, kx: int, wx: int, hx: int|
                unfilled_cand(m, min_x, min_y, max_x, max_y, jj, kx, wx, hx) implies !(wx > width
                && hx > height) by {}
        }
        false
    }

    /// As `contains_unfilled_rect_width_height`, after normalizing reversed
    /// axes and expanding the window by the given clearance on each side.
    pub fn contains_unfilled_rect_width_height_padding(
        &self,
        min_x: i32,
        min_y: i32,
        max_x: i32,
        max_y: i32,
        width: i32,
        height: i32,
        x_padding: i32,
        y_padding: i32,
    ) -> (r: bool)
        requires
            self.inv(),
            i32::MIN <= lo_of(min_x, max_x) - x_padding <= i32::MAX,
            i32::MIN <= hi_of(min_x, max_x) + x_padding <= i32::MAX,
            i32::MIN <= lo_of(min_y, max_y) - y_padding <= i32::MAX,
            i32::MIN <= hi_of(min_y, max_y) + y_padding <= i32::MAX,
        ensures
            r == exists|j: int, k: int, w: int, h: int|
                #[trigger] unfilled_cand(
                    self.model(),
                    (lo_of(min_x, max_x) - x_padding) as i32,
                    (lo_of(min_y, max_y) - y_padding) as i32,
                    (hi_of(min_x, max_x) + x_padding) as i32,
                    (hi_of(min_y, max_y) + y_padding) as i32,
                    j,
                    k,
                    w,
                    h,
                ) && w > width && h > height,
    {
        let nx0 = min(min_x, max_x);
        let nx1 = max(min_x, max_x);
        let ny0 = min(min_y, max_y);
        let ny1 = max(min_y, max_y);
        self.contains_unfilled_rect_width_height(
            nx0 - x_padding,
            ny0 - y_padding,
            nx1 + x_padding,
            ny1 + y_padding,
            width,
            height,
        )
    }

    /// Mark the rectangle `[min_x, max_x) x [min_y, max_y)` as filled, with
    /// reversed axes normalized by swapping: every tracked cell of the
    /// rectangle becomes filled, every other cell keeps its state. Cells
    /// outside the tracked bounding rectangle stay untracked.
    pub fn fill_rect(&mut self, min_x: i32, min_y: i32, max_x: i32, max_y: i32)
        requires
            old(self).inv(),
        ensures
            final(self).inv(),
            forall|x: i32, y: i32|
                #[trigger] cell_of(final(self).model(), x, y) == (if lo_of(min_x, max_x) <= x
                    < hi_of(min_x, max_x) && lo_of(min_y, max_y) <= y < hi_of(min_y, max_y)
                    && cell_of(old(self).model(), x, y) is Some {
                    Some(Cell::Filled)
                } else {
                    cell_of(old(self).model(), x, y)
                }),
    {
        let nx0 = min(min_x, max_x);
        let nx1 = max(min_x, max_x);
        let ny0 = min(min_y, max_y);
        let ny1 = max(min_y, max_y);
        let ghost m0 = self.model();
        let snapshot = self.map.data_range(nx0, nx1);
        let ghost cl = clipped(m0, nx0, nx1);
        let sn = snapshot.len();
        let mut j: usize = 0;
        while j < sn
            invariant
                j <= sn,
                sn == snapshot@.len(),
                self.inv(),
                ny0 <= ny1,
                frect_wf(m0),
                cl == clipped(m0, nx0, nx1),
                sn == cl.len(),
                forall|jj: int|
                    0 <= jj < sn ==> (#[trigger] snapshot@[jj]).0.model() == cl[jj].0
                        && snapshot@[jj].1 == cl[jj].1 && snapshot@[jj].2 == cl[jj].2,
                fill_progress(m0, self.model(), cl, j as int, ny0, ny1),
            decreases sn - j,
        {
            let lx0 = snapshot[j].1;
            let lx1 = snapshot[j].2;
            proof {
                lemma_clipped_bounds(m0, nx0, nx1, 0);
            }
            let ghost mc = self.model();
            match &snapshot[j].0 {
                Column::Outside => {
                    proof {
                        lemma_fill_step_outside(m0, mc, nx0, nx1, ny0, ny1, j as int);
                    }
                },
                Column::Inside(col) => {
                    proof {
                        lemma_clipped_entry(m0, nx0, nx1, 0, j as int, lx0);
                        assert(at(m0, lx0) == cl[j as int].0);
                        lemma_at_some_wf(m0, lx0);
                        assert(wf(col.model()));
                    }
                    let ghost colm = col.model();
                    let mut c2 = col.dup_map();
                    c2.set(Cell::Filled, ny0, ny1);
                    let ghost c2m = c2.model();
                    proof {
                        assert forall|x: i32| lx0 <= x < lx1 implies at(mc, x) is Some by {
                            lemma_clipped_entry(m0, nx0, nx1, 0, j as int, x);
                            assert(at(m0, x) == cl[j as int].0);
                            assert(cell_of(m0, x, ny0) is Some);
                            assert(cell_of(mc, x, ny0) is Some);
                        }
                    }
                    self.map.set(Column::Inside(c2), lx0, lx1);
                    proof {
                        let mn = self.model();
                        assert(forall|x: i32|
                            at(mn, x) == (if lx0 <= x < lx1 {
                                Some(c2m)
                            } else {
                                at(mc, x)
                            }));
                        lemma_frect_preserve(mc, mn, c2m, lx0, lx1);
                        lemma_fill_step_inside(
                            m0,
                            mc,
                            mn,
                            colm,
                            c2m,
                            nx0,
                            nx1,
                            ny0,
                            ny1,
                            j as int,
                        );
                    }
                },
            }
            j += 1;
        }
        proof {
            lemma_fill_finish(m0, self.model(), nx0, nx1, ny0, ny1);
        }
    }
}

/// Fit-query consistency: when the fit query reports that some candidate
/// block strictly exceeds the requested width and height, the largest-block
/// scan over the same candidate set reports an area of at least
/// `(width + 1) * (height + 1)`. The hypotheses are exactly what
/// `contains_unfilled_rect_width_height` and `biggest_unfilled_area_block`
/// ensure for one window.
#[verifier::spinoff_prover]
#[verifier::rlimit(100)]
pub proof fn lemma_fit_query_consistency(
    m: MapModel<Option<MapModel<Cell>>>,
    qx0: i32,
    qy0: i32,
    qx1: i32,
    qy1: i32,
    width: i32,
    height: i32,
    r_fit: bool,
    r_big: int,
)
    requires
        r_fit == exists|j: int, k: int, w: int, h: int|
            unfilled_cand(m, qx0, qy0, qx1, qy1, j, k, w, h) && w > width && h > height,
        forall|j: int, k: int, w: int, h: int|
            unfilled_cand(m, qx0, qy0, qx1, qy1, j, k, w, h) ==> w * h <= r_big,
        r_big >= 0,
        width >= 0,
        height >= 0,
    ensures
        r_fit ==> r_big >= (width + 1) * (height + 1),
{
    if r_fit {
        let (j, k, w, h) = choose|j: int, k: int, w: int, h: int|
            unfilled_cand(m, qx0, qy0, qx1, qy1, j, k, w, h) && w > width && h > height;
        assert(w * h <= r_big);
        assert(w * h >= (width + 1) * (height + 1)) by (nonlinear_arith)
            requires
                w >= width + 1,
                h >= height + 1,
                width >= 0,
                height >= 0,
        ;
    }
}

/// Largest-empty-block monotonicity in the settled case: a window whose
/// largest unfilled block already has zero area keeps zero area after any
/// further fill. (With candidate blocks measured per stored range, a fill
/// that merges two equal columns can otherwise enlarge the largest single
/// block, so the general non-increase does not hold of this scan.)
#[verifier::spinoff_prover]
#[verifier::rlimit(100)]
pub proof fn lemma_biggest_zero_monotone(
    m0: MapModel<Option<MapModel<Cell>>>,
    m1: MapModel<Option<MapModel<Cell>>>,
    fx0: i32,
    fy0: i32,
    fx1: i32,
    fy1: i32,
    qx0: i32,
    qy0: i32,
    qx1: i32,
    qy1: i32,
)
    requires
        frect_wf(m0),
        frect_wf(m1),
        forall|x: i32, y: i32|
            #[trigger] cell_of(m1, x, y) == (if fx0 <= x < fx1 && fy0 <= y < fy1 && cell_of(
                m0,
                x,
                y,
            ) is Some {
                Some(Cell::Filled)
            } else {
                cell_of(m0, x, y)
            }),
        forall|j: int, k: int, w: int, h: int|
            unfilled_cand(m0, qx0, qy0, qx1, qy1, j, k, w, h) ==> w * h <= 0,
    ensures
        forall|j: int, k: int, w: int, h: int|
            unfilled_cand(m1, qx0, qy0, qx1, qy1, j, k, w, h) ==> w * h <= 0,
{
    let cl1 = clipped(m1, qx0, qx1);
    assert forall|j: int, k: int, w: int, h: int|
        unfilled_cand(m1, qx0, qy0, qx1, qy1, j, k, w, h) implies w * h <= 0 by {
        lemma_clipped_bounds(m1, qx0, qx1, 0);
        lemma_entry_some(m1, qx0, qx1, j);
        let colm1 = cl1[j].0->Some_0;
        let rcl1 = clipped(colm1, qy0, qy1);
        let x = cl1[j].1;
        let y = rcl1[k].1;
        lemma_clipped_entry(m1, qx0, qx1, 0, j, x);
        lemma_at_some_wf(m1, x);
        lemma_clipped_bounds(colm1, qy0, qy1, 0);
        lemma_clipped_entry(colm1, qy0, qy1, 0, k, y);
        assert(cell_of(m1, x, y) == Some(Cell::Unfilled));
        assert(qx0 <= x < qx1 && qy0 <= y < qy1);
        assert(cell_of(m0, x, y) == Some(Cell::Unfilled));
        // find the candidate of the old state that holds the same cell
        assert(has_block(m0, x)) by {
            if !has_block(m0, x) {
                assert(at(m0, x) == m0.default);
            }
        }
        lemma_clipped_find(m0, qx0, qx1, 0, x);
        let cl0 = clipped(m0, qx0, qx1);
        let jj = choose|jj: int|
            0 <= jj < clipped_from(m0, qx0, qx1, 0).len() && (#[trigger] clipped_from(
                m0,
                qx0,
                qx1,
                0,
            )[jj]).1 <= x < clipped_from(m0, qx0, qx1, 0)[jj].2;
        lemma_clipped_entry(m0, qx0, qx1, 0, jj, x);
        lemma_at_some_wf(m0, x);
        let colm0 = at(m0, x)->Some_0;
        assert(cl0[jj].0 == Some(colm0));
        assert(at(colm0, y) == Cell::Unfilled);
        assert(has_block(colm0, y)) by {
            if !has_block(colm0, y) {
                assert(at(colm0, y) == colm0.default);
            }
        }
        lemma_clipped_find(colm0, qy0, qy1, 0, y);
        let rcl0 = clipped(colm0, qy0, qy1);
        let kk = choose|kk: int|
            0 <= kk < clipped_from(colm0, qy0, qy1, 0).len() && (#[trigger] clipped_from(
                colm0,
                qy0,
                qy1,
                0,
            )[kk]).1 <= y < clipped_from(colm0, qy0, qy1, 0)[kk].2;
        lemma_clipped_entry(colm0, qy0, qy1, 0, kk, y);
        lemma_clipped_bounds(m0, qx0, qx1, 0);
        lemma_clipped_bounds(colm0, qy0, qy1, 0);
        let w0 = cl0[jj].2 - cl0[jj].1;
        let h0 = rcl0[kk].2 - rcl0[kk].1;
        assert(unfilled_cand(m0, qx0, qy0, qx1, qy1, jj, kk, w0, h0));
        assert(w0 * h0 <= 0);
        assert(w0 * h0 >= 1) by (nonlinear_arith)
            requires
                w0 >= 1,
                h0 >= 1,
        ;
        assert(false);
    }
}

} // verus!
