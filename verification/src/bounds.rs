//! Positions and bounding boxes in terms of raster cells.
//!
//! A geographic position resolves to one cell and a point inside it; a
//! geographic bounding box resolves to the cells of its two corners. The
//! box may wrap around the 180th meridian: its first column may lie east of
//! its last one.

use crate::multipolygon::Point;
use vstd::arithmetic::div_mod::{
    lemma_fundamental_div_mod, lemma_fundamental_div_mod_converse, lemma_small_mod,
};
use vstd::prelude::*;

verus! {

/// A position on the raster: the cell in column `cell_x` of row `cell_y`,
/// and the `point` inside that cell.
#[derive(Debug, Copy, Clone, PartialEq, Eq)]
pub struct CellPosition {
    pub cell_x: usize,
    pub cell_y: usize,
    pub point: Point,
}

/// A bounding box on the raster, by the cells of its corners: from column
/// `min_x` eastwards to column `max_x`, and from row `min_y` down to row
/// `max_y`. Where `min_x` is greater than `max_x` the box runs from
/// `min_x` to the last column and on from the first column to `max_x`.
#[derive(Debug, Copy, Clone, PartialEq, Eq)]
pub struct CellBounds {
    pub min_x: usize,
    pub min_y: usize,
    pub max_x: usize,
    pub max_y: usize,
}

impl CellBounds {
    /// The number of columns of the box after its first one, on a raster of
    /// `width` columns.
    pub open spec fn steps_x(self, width: int) -> int {
        if self.min_x > self.max_x {
            width - self.min_x + self.max_x
        } else {
            self.max_x - self.min_x
        }
    }

    /// The number of rows of the box after its first one.
    pub open spec fn steps_y(self) -> int {
        self.max_y - self.min_y
    }

    /// The number of cells of the box.
    pub open spec fn cell_count(self, width: int) -> int {
        (self.steps_x(width) + 1) * (self.steps_y() + 1)
    }

    /// The box lies on a raster of `width` columns and `height` rows.
    pub open spec fn fits(self, width: int, height: int) -> bool {
        &&& self.min_x < width
        &&& self.max_x < width
        &&& self.min_y <= self.max_y < height
    }

    /// The column of the box that lies `x_step` columns east of its first one.
    pub open spec fn column(self, width: int, x_step: int) -> int {
        (self.min_x + x_step) % width
    }

    /// The row of the box that lies `y_step` rows below its first one.
    pub open spec fn row(self, y_step: int) -> int {
        self.min_y + y_step
    }

    /// Column and row of the `k`-th cell of the box. The cells are counted
    /// column by column from the first column eastwards, and from the top
    /// row down within each column.
    pub open spec fn coordinate(self, width: int, k: int) -> (int, int) {
        (self.column(width, k / (self.steps_y() + 1)), self.row(k % (self.steps_y() + 1)))
    }
}

/// The number of a cell of the box, given how many columns and rows it is
/// away from the first cell.
pub open spec fn cell_number(bounds: CellBounds, x_step: int, y_step: int) -> int {
    x_step * (bounds.steps_y() + 1) + y_step
}

/// The cell `x_step` columns and `y_step` rows from the first cell of the
/// box is one of its cells, and has the coordinate that belongs to its steps.
pub(crate) proof fn lemma_cell_number(bounds: CellBounds, width: int, x_step: int, y_step: int)
    requires
        bounds.min_y <= bounds.max_y,
        0 <= x_step <= bounds.steps_x(width),
        0 <= y_step <= bounds.steps_y(),
    ensures
        0 <= cell_number(bounds, x_step, y_step) < bounds.cell_count(width),
        bounds.coordinate(width, cell_number(bounds, x_step, y_step)) == (
            bounds.column(width, x_step),
            bounds.row(y_step),
        ),
{
    let rows = bounds.steps_y() + 1;
    let k = cell_number(bounds, x_step, y_step);
    lemma_fundamental_div_mod_converse(k, rows, x_step, y_step);
    assert(0 <= x_step * rows) by (nonlinear_arith)
        requires
            0 <= x_step,
            0 < rows,
    ;
    assert((x_step + 1) * rows <= (bounds.steps_x(width) + 1) * rows) by (nonlinear_arith)
        requires
            x_step <= bounds.steps_x(width),
            0 < rows,
    ;
    assert((x_step + 1) * rows == x_step * rows + rows) by (nonlinear_arith);
}

/// Every cell of the box lies some columns and rows from its first cell,
/// within the steps of the box.
pub(crate) proof fn lemma_cell_steps(bounds: CellBounds, width: int, k: int)
    requires
        bounds.min_y <= bounds.max_y,
        0 <= bounds.steps_x(width),
        0 <= k < bounds.cell_count(width),
    ensures
        0 <= k / (bounds.steps_y() + 1) <= bounds.steps_x(width),
        0 <= k % (bounds.steps_y() + 1) <= bounds.steps_y(),
        k == cell_number(bounds, k / (bounds.steps_y() + 1), k % (bounds.steps_y() + 1)),
{
    let rows = bounds.steps_y() + 1;
    let q = k / rows;
    lemma_fundamental_div_mod(k, rows);
    assert(rows * q == q * rows) by (nonlinear_arith);
    assert(0 <= q) by (nonlinear_arith)
        requires
            0 <= k,
            0 < rows,
            k == q * rows + k % rows,
            0 <= k % rows < rows,
    ;
    assert(q <= bounds.steps_x(width)) by (nonlinear_arith)
        requires
            k < (bounds.steps_x(width) + 1) * rows,
            0 < rows,
            k == q * rows + k % rows,
            0 <= k % rows < rows,
    ;
}

/// A column that lies fewer than `width` columns east of a column of the
/// raster is found by going on from the first column at the last one.
pub(crate) proof fn lemma_column_wraps(min_x: int, x_step: int, width: int)
    requires
        0 <= min_x < width,
        0 <= x_step < width,
    ensures
        (min_x + x_step) % width == if x_step >= width - min_x {
            x_step - (width - min_x)
        } else {
            min_x + x_step
        },
        0 <= (min_x + x_step) % width < width,
{
    if x_step >= width - min_x {
        lemma_fundamental_div_mod_converse(min_x + x_step, width, 1, x_step - (width - min_x));
    } else {
        lemma_small_mod((min_x + x_step) as nat, width as nat);
    }
}

/// A box that fits a raster has fewer columns than the raster, and no more
/// cells than the raster has in that many full rows.
pub(crate) proof fn lemma_bounds_fit(bounds: CellBounds, width: int, height: int)
    requires
        bounds.fits(width, height),
    ensures
        0 <= bounds.steps_x(width) < width,
        0 <= bounds.steps_y() < height,
        0 < bounds.cell_count(width) <= width * height,
{
    let sx = bounds.steps_x(width) + 1;
    let sy = bounds.steps_y() + 1;
    assert(0 < sx * sy) by (nonlinear_arith)
        requires
            0 < sx,
            0 < sy,
    ;
    assert(sx * sy <= width * height) by (nonlinear_arith)
        requires
            0 < sx <= width,
            0 < sy <= height,
    ;
}

} // verus!
