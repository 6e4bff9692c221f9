//! Offline point location on a raster of the world: which regions contain
//! a position, which regions fill or touch a bounding box.
//!
//! The world is cut into a raster of equally sized cells. Each cell knows
//! the regions that cover it completely, and holds the outline of each
//! region that covers only a part of it, so that a query looks at one cell
//! and tests at most a few small polygons.

pub mod bounds;
pub mod cell;
pub mod deserializer;
pub mod format;
pub mod multipolygon;
pub mod sizes;
pub mod text;

pub use bounds::{CellBounds, CellPosition};
pub use cell::Cell;
pub use deserializer::ReadError;
pub use multipolygon::{Multipolygon, Point};
pub use sizes::GeometrySizes;

use bounds::{lemma_bounds_fit, lemma_cell_number, lemma_cell_steps, lemma_column_wraps};
use cell::CellView;
use sizes::{ascending_by_size, size_map, sorted_by_size};
use text::{extend_new, extend_new_strings, ids_view, retain_contained};
use vstd::arithmetic::div_mod::lemma_fundamental_div_mod;
use vstd::prelude::*;

verus! {

/// Mathematical model of [`CountryBoundaries`].
pub struct GridView {
    /// The cells row by row, each row from west to east, the northernmost
    /// row first.
    pub raster: Seq<CellView>,
    /// The number of cells in a row.
    pub raster_width: int,
    /// The registered sizes, in the order of their registration.
    pub geometry_sizes: Seq<(Seq<char>, u64)>,
}

/// The models of a list of cells.
pub open spec fn raster_view(raster: Seq<Cell>) -> Seq<CellView> {
    Seq::new(raster.len(), |i: int| raster[i]@)
}

/// The column that a longitude resolves to on a raster of `width` columns,
/// where `scaled` is the longitude's distance from the western edge in
/// columns, rounded down: the easternmost column for the eastern edge itself.
pub open spec fn clamped_column(width: int, scaled: int) -> int {
    if scaled < width {
        scaled
    } else if width > 0 {
        width - 1
    } else {
        0
    }
}

/// The row that a latitude resolves to, where `scaled` is the latitude's
/// distance from the northern edge in rows, rounded up: the first row for
/// the northern edge itself.
pub open spec fn clamped_row(scaled: int) -> int {
    if scaled > 0 {
        scaled - 1
    } else {
        0
    }
}

impl GridView {
    /// The raster consists of complete rows.
    pub open spec fn wf(self) -> bool {
        self.raster_width > 0 && self.raster.len() % (self.raster_width as nat) == 0
    }

    /// The number of complete rows.
    pub open spec fn height(self) -> int {
        if self.raster_width > 0 {
            self.raster.len() as int / self.raster_width
        } else {
            0
        }
    }

    /// Whether the raster has a cell in column `x` of row `y`.
    pub open spec fn has_cell(self, x: int, y: int) -> bool {
        0 <= x < self.raster_width && 0 <= y < self.height()
    }

    /// The cell in column `x` of row `y`.
    pub open spec fn cell(self, x: int, y: int) -> CellView {
        self.raster[y * self.raster_width + x]
    }

    /// The size registered for each id.
    pub open spec fn sizes(self) -> Map<Seq<char>, u64> {
        size_map(self.geometry_sizes)
    }

    /// Whether the box `bounds` lies on the raster.
    pub open spec fn has_cells(self, bounds: CellBounds) -> bool {
        bounds.fits(self.raster_width, self.height())
    }

    /// The cells of the box `bounds`, column by column from its first
    /// column eastwards, and from the top down within each column.
    pub open spec fn cells(self, bounds: CellBounds) -> Seq<CellView> {
        Seq::new(
            bounds.cell_count(self.raster_width) as nat,
            |k: int|
                self.cell(
                    bounds.coordinate(self.raster_width, k).0,
                    bounds.coordinate(self.raster_width, k).1,
                ),
        )
    }

    /// Whether the region `id` covers every cell of the box entirely.
    pub open spec fn contained_in_all(self, bounds: CellBounds, id: Seq<char>) -> bool {
        forall|k: int|
            0 <= k < self.cells(bounds).len() ==> (#[trigger] self.cells(
                bounds,
            )[k]).containing_ids.contains(id)
    }

    /// Whether the region `id` covers a cell of the box, entirely or in part.
    pub open spec fn touches_any(self, bounds: CellBounds, id: Seq<char>) -> bool {
        exists|k: int|
            0 <= k < self.cells(bounds).len() && (#[trigger] self.cells(
                bounds,
            )[k]).all_ids().contains(id)
    }
}

/// Whether the region `id` covers each of the first `n` of `cells` entirely.
spec fn contained_in_first(cells: Seq<CellView>, n: int, id: Seq<char>) -> bool {
    forall|k: int| 0 <= k < n ==> (#[trigger] cells[k]).containing_ids.contains(id)
}

/// Whether the region `id` covers one of the first `n` of `cells`, entirely or in part.
spec fn touches_first(cells: Seq<CellView>, n: int, id: Seq<char>) -> bool {
    exists|k: int| 0 <= k < n && (#[trigger] cells[k]).all_ids().contains(id)
}

/// The index of each cell that the raster has lies within the raster.
proof fn lemma_cell_index(grid: GridView, x: int, y: int)
    requires
        grid.has_cell(x, y),
    ensures
        0 <= y * grid.raster_width + x < grid.raster.len(),
{
    let w = grid.raster_width;
    let len = grid.raster.len() as int;
    lemma_fundamental_div_mod(len, w);
    assert(0 <= y * w) by (nonlinear_arith)
        requires
            0 <= y,
            0 < w,
    ;
    assert(y * w + w <= w * (len / w)) by (nonlinear_arith)
        requires
            y < len / w,
            0 < w,
    ;
}

/// On a raster of complete rows every cell has a column and a row.
pub proof fn lemma_every_cell_has_coordinates(grid: GridView, i: int)
    requires
        grid.wf(),
        0 <= i < grid.raster.len(),
    ensures
        grid.has_cell(i % grid.raster_width, i / grid.raster_width),
        grid.cell(i % grid.raster_width, i / grid.raster_width) == grid.raster[i],
{
    let w = grid.raster_width;
    let len = grid.raster.len() as int;
    lemma_fundamental_div_mod(i, w);
    lemma_fundamental_div_mod(len, w);
    assert(w * (i / w) == (i / w) * w) by (nonlinear_arith);
    assert(i / w < len / w) by (nonlinear_arith)
        requires
            0 < w,
            i < len,
            len == w * (len / w),
            i == w * (i / w) + i % w,
            0 <= i % w < w,
    ;
    assert(0 <= i / w) by (nonlinear_arith)
        requires
            0 < w,
            0 <= i,
            i == w * (i / w) + i % w,
            0 <= i % w < w,
    ;
}

/// Each cell of a box that lies on the raster is a cell of the raster.
proof fn lemma_cells_on_raster(grid: GridView, bounds: CellBounds, x_step: int, y_step: int)
    requires
        grid.has_cells(bounds),
        0 <= x_step <= bounds.steps_x(grid.raster_width),
        0 <= y_step <= bounds.steps_y(),
    ensures
        grid.has_cell(bounds.column(grid.raster_width, x_step), bounds.row(y_step)),
{
    lemma_bounds_fit(bounds, grid.raster_width, grid.height());
    lemma_column_wraps(bounds.min_x as int, x_step, grid.raster_width);
}

/// The cells of a box are the cells in its columns and rows: the cell
/// `x_step` columns and `y_step` rows from the first one is among them.
pub proof fn lemma_cells_hold_each_step(
    grid: GridView,
    bounds: CellBounds,
    x_step: int,
    y_step: int,
) -> (k: int)
    requires
        grid.has_cells(bounds),
        0 <= x_step <= bounds.steps_x(grid.raster_width),
        0 <= y_step <= bounds.steps_y(),
    ensures
        0 <= k < grid.cells(bounds).len(),
        grid.cells(bounds)[k] == grid.cell(
            bounds.column(grid.raster_width, x_step),
            bounds.row(y_step),
        ),
{
    lemma_cell_number(bounds, grid.raster_width, x_step, y_step);
    bounds::cell_number(bounds, x_step, y_step)
}

/// The cells of a box are the cells in its columns and rows: each of them
/// lies some columns and rows from the first one, within the box.
pub proof fn lemma_cells_hold_only_steps(grid: GridView, bounds: CellBounds, k: int) -> (steps: (
    int,
    int,
))
    requires
        grid.has_cells(bounds),
        0 <= k < grid.cells(bounds).len(),
    ensures
        0 <= steps.0 <= bounds.steps_x(grid.raster_width),
        0 <= steps.1 <= bounds.steps_y(),
        grid.cells(bounds)[k] == grid.cell(
            bounds.column(grid.raster_width, steps.0),
            bounds.row(steps.1),
        ),
{
    lemma_bounds_fit(bounds, grid.raster_width, grid.height());
    lemma_cell_steps(bounds, grid.raster_width, k);
    (k / (bounds.steps_y() + 1), k % (bounds.steps_y() + 1))
}

/// A region that covers no part of some cell of a box does not cover the
/// whole box: where one cell of the box has no containing ids, no region
/// contains the box.
pub proof fn lemma_empty_cell_empties_containing_ids(
    grid: GridView,
    bounds: CellBounds,
    k: int,
    id: Seq<char>,
)
    requires
        0 <= k < grid.cells(bounds).len(),
        grid.cells(bounds)[k].containing_ids.len() == 0,
    ensures
        !grid.contained_in_all(bounds, id),
{
}

/// Every region that contains a box also intersects it.
pub proof fn lemma_containing_ids_within_intersecting_ids(
    grid: GridView,
    bounds: CellBounds,
    id: Seq<char>,
)
    requires
        grid.has_cells(bounds),
        grid.contained_in_all(bounds, id),
    ensures
        grid.touches_any(bounds, id),
{
    lemma_bounds_fit(bounds, grid.raster_width, grid.height());
    let first = grid.cells(bounds)[0];
    assert(first.containing_ids.contains(id));
    let i = choose|i: int| 0 <= i < first.containing_ids.len() && first.containing_ids[i] == id;
    assert(first.all_ids()[i] == id);
}

/// Every position resolves to a cell of the raster: no scaled longitude
/// leads beyond the last column, and no scaled latitude up to the number of
/// rows leads beyond the last row.
pub proof fn lemma_position_has_cell(grid: GridView, scaled_longitude: int, scaled_latitude: int)
    requires
        grid.raster_width > 0,
        grid.height() > 0,
        0 <= scaled_longitude,
        0 <= scaled_latitude <= grid.height(),
    ensures
        grid.has_cell(
            clamped_column(grid.raster_width, scaled_longitude),
            clamped_row(scaled_latitude),
        ),
{
}

/// On a raster of one column every longitude resolves to that column.
pub proof fn lemma_single_column(scaled_a: int, scaled_b: int)
    requires
        0 <= scaled_a,
        0 <= scaled_b,
    ensures
        clamped_column(1, scaled_a) == 0,
        clamped_column(1, scaled_a) == clamped_column(1, scaled_b),
{
}

/// The raster of the world with the regions of each cell, and the size of
/// each region.
#[derive(Debug, Clone, PartialEq, Eq)]
pub struct CountryBoundaries {
    /// The cells, row by row.
    raster: Vec<Cell>,
    /// The number of cells in a row.
    raster_width: usize,
    /// The sizes of the regions.
    geometry_sizes: GeometrySizes,
}

impl View for CountryBoundaries {
    type V = GridView;

    closed spec fn view(&self) -> GridView {
        GridView {
            raster: raster_view(self.raster@),
            raster_width: self.raster_width as int,
            geometry_sizes: self.geometry_sizes.entries(),
        }
    }
}

/// A cursor over the cells of a bounding box, which hands out one cell
/// after the other.
pub struct Cells<'a> {
    grid: &'a CountryBoundaries,
    bounds: CellBounds,
    steps_x: usize,
    steps_y: usize,
    x_step: usize,
    y_step: usize,
}

impl<'a> Cells<'a> {
    /// The cursor stands on a cell of its box, or behind the last one, and
    /// the box lies on the raster.
    pub closed spec fn wf(&self) -> bool {
        &&& self.grid@.has_cells(self.bounds)
        &&& self.steps_x == self.bounds.steps_x(self.grid@.raster_width)
        &&& self.steps_y == self.bounds.steps_y()
        &&& self.y_step <= self.steps_y
        &&& self.x_step <= self.steps_x + 1
        &&& self.x_step > self.steps_x ==> self.y_step == 0
    }

    /// The number of cells handed out so far.
    pub closed spec fn position(&self) -> int {
        bounds::cell_number(self.bounds, self.x_step as int, self.y_step as int)
    }

    /// All cells that the cursor hands out from its start to its end.
    pub closed spec fn all(&self) -> Seq<CellView> {
        self.grid@.cells(self.bounds)
    }

    /// Hands out the next cell, or `None` behind the last one. The cells come
    /// in the order of [`Cells::all`], each once.
    pub fn next(&mut self) -> (r: Option<&'a Cell>)
        requires
            old(self).wf(),
        ensures
            final(self).wf(),
            final(self).all() == old(self).all(),
            0 <= old(self).position() <= old(self).all().len(),
            match r {
                Some(cell) => {
                    &&& old(self).position() < old(self).all().len()
                    &&& cell@ == old(self).all()[old(self).position()]
                    &&& final(self).position() == old(self).position() + 1
                },
                None => {
                    &&& old(self).position() == old(self).all().len()
                    &&& final(self).position() == old(self).position()
                },
            },
    {
        let grid: &'a CountryBoundaries = self.grid;
        proof {
            let w = grid@.raster_width;
            lemma_bounds_fit(self.bounds, w, grid@.height());
            assert((self.steps_x + 1) * (self.steps_y + 1) == self.bounds.cell_count(w));
            if self.x_step <= self.steps_x {
                lemma_cell_number(self.bounds, w, self.x_step as int, self.y_step as int);
                lemma_cells_on_raster(grid@, self.bounds, self.x_step as int, self.y_step as int);
                lemma_column_wraps(self.bounds.min_x as int, self.x_step as int, w);
            }
        }
        if self.x_step > self.steps_x {
            return None;
        }
        let to_edge: usize = grid.raster_width - self.bounds.min_x;
        let x: usize = if self.x_step >= to_edge {
            self.x_step - to_edge
        } else {
            self.bounds.min_x + self.x_step
        };
        let y: usize = self.bounds.min_y + self.y_step;
        let cell = grid.cell(x, y);
        if self.y_step < self.steps_y {
            self.y_step += 1;
        } else {
            self.y_step = 0;
            self.x_step += 1;
        }
        proof {
            let rows = self.steps_y + 1;
            let column = old(self).x_step as int;
            assert((column + 1) * rows == column * rows + rows) by (nonlinear_arith);
        }
        Some(cell)
    }
}

impl CountryBoundaries {
    /// Reads the dataset that the bytes `reader` begin with.
    ///
    /// Fails where the bytes do not begin with a dataset of the version
    /// that this library reads.
    pub fn from_reader(reader: &[u8]) -> (r: Result<Self, ReadError>)
        ensures
            match deserializer::parse_grid(reader@) {
                Ok((value, _)) => r matches Ok(grid) && grid@ == value,
                Err(e) => r == Err::<Self, ReadError>(e),
            },
    {
        let mut rest: &[u8] = reader;
        deserializer::from_reader(&mut rest)
    }

    /// A raster of `raster_width` columns that holds `raster` row by row,
    /// with the sizes of the regions.
    pub fn new(raster: Vec<Cell>, raster_width: usize, geometry_sizes: GeometrySizes) -> (r: Self)
        ensures
            r@.raster == raster_view(raster@),
            r@.raster_width == raster_width,
            r@.geometry_sizes == geometry_sizes.entries(),
    {
        CountryBoundaries { raster, raster_width, geometry_sizes }
    }

    /// The cells, row by row.
    pub fn raster(&self) -> (r: &Vec<Cell>)
        ensures
            raster_view(r@) == self@.raster,
    {
        &self.raster
    }

    /// The number of cells in a row.
    pub fn raster_width(&self) -> (r: usize)
        ensures
            r == self@.raster_width,
    {
        self.raster_width
    }

    /// The number of complete rows.
    pub fn raster_height(&self) -> (r: usize)
        requires
            self@.raster_width > 0,
        ensures
            r == self@.height(),
    {
        self.raster.len() / self.raster_width
    }

    /// The sizes of the regions.
    pub fn geometry_sizes(&self) -> (r: &GeometrySizes)
        ensures
            r.entries() == self@.geometry_sizes,
            r@ == self@.sizes(),
    {
        &self.geometry_sizes
    }

    /// The column that a longitude resolves to, where `scaled` is its
    /// distance from the western edge in columns, rounded down.
    pub fn longitude_to_cell_x(&self, scaled: usize) -> (r: usize)
        ensures
            r == clamped_column(self@.raster_width, scaled as int),
            self@.raster_width > 0 ==> r < self@.raster_width,
    {
        let last = if self.raster_width > 0 {
            self.raster_width - 1
        } else {
            0
        };
        if scaled < last {
            scaled
        } else {
            last
        }
    }

    /// The row that a latitude resolves to, where `scaled` is its distance
    /// from the northern edge in rows, rounded up.
    pub fn latitude_to_cell_y(&self, scaled: usize) -> (r: usize)
        ensures
            r == clamped_row(scaled as int),
            self@.height() > 0 && scaled <= self@.height() ==> r < self@.height(),
    {
        if scaled > 0 {
            scaled - 1
        } else {
            0
        }
    }

    /// The cell in column `x` of row `y`.
    pub fn cell(&self, x: usize, y: usize) -> (r: &Cell)
        requires
            self@.has_cell(x as int, y as int),
        ensures
            r@ == self@.cell(x as int, y as int),
    {
        proof {
            lemma_cell_index(self@, x as int, y as int);
            assert(0 <= y * self.raster_width) by (nonlinear_arith);
            assert(self@.raster.len() == self.raster.len());
        }
        &self.raster[y * self.raster_width + x]
    }

    /// Returns whether `position` is in the region with the given `id`.
    pub fn is_in(&self, position: CellPosition, id: &str) -> (r: bool)
        requires
            self@.has_cell(position.cell_x as int, position.cell_y as int),
        ensures
            r == self@.cell(position.cell_x as int, position.cell_y as int).is_in(
                position.point,
                id@,
            ),
    {
        self.cell(position.cell_x, position.cell_y).is_in(position.point, id)
    }

    /// Returns whether `position` is in any of the regions with the given `ids`.
    pub fn is_in_any(&self, position: CellPosition, ids: &[&str]) -> (r: bool)
        requires
            self@.has_cell(position.cell_x as int, position.cell_y as int),
        ensures
            r == self@.cell(position.cell_x as int, position.cell_y as int).is_in_any(
                position.point,
                ids_view(ids@),
            ),
    {
        self.cell(position.cell_x, position.cell_y).is_in_any(position.point, ids)
    }

    /// Returns the ids of the regions that `position` is in, ordered by
    /// the size of the region ascending. A region without a registered size
    /// is ordered as if its size were zero; regions of equal size come in
    /// the order of their cell: first those that cover it completely.
    pub fn ids<'a>(&'a self, position: CellPosition) -> (r: Vec<&'a str>)
        requires
            self@.has_cell(position.cell_x as int, position.cell_y as int),
        ensures
            ids_view(r@) == sorted_by_size(
                self@.cell(position.cell_x as int, position.cell_y as int).ids(position.point),
                self@.sizes(),
            ),
            ascending_by_size(ids_view(r@), self@.sizes()),
            ids_view(r@).to_multiset() == self@.cell(
                position.cell_x as int,
                position.cell_y as int,
            ).ids(position.point).to_multiset(),
    {
        let cell = self.cell(position.cell_x, position.cell_y);
        let found = cell.get_ids(position.point);
        self.geometry_sizes.sort_by_size(found)
    }

    /// A cursor over the cells of the box `bounds`, column by column from
    /// its first column eastwards, and from the top down within each column.
    pub fn cells<'a>(&'a self, bounds: &CellBounds) -> (r: Cells<'a>)
        requires
            self@.has_cells(*bounds),
        ensures
            r.wf(),
            r.position() == 0,
            r.all() == self@.cells(*bounds),
    {
        let steps_y = bounds.max_y - bounds.min_y;
        let steps_x = if bounds.min_x > bounds.max_x {
            self.raster_width - bounds.min_x + bounds.max_x
        } else {
            bounds.max_x - bounds.min_x
        };
        Cells { grid: self, bounds: *bounds, steps_x, steps_y, x_step: 0, y_step: 0 }
    }

    /// Returns the ids of the regions that fully contain the box `bounds`:
    /// those that cover every cell of it completely. Each id comes once.
    pub fn containing_ids<'a>(&'a self, bounds: CellBounds) -> (r: Vec<&'a str>)
        requires
            self@.has_cells(bounds),
        ensures
            ids_view(r@).no_duplicates(),
            forall|id: Seq<char>|
                ids_view(r@).contains(id) <==> self@.contained_in_all(bounds, id),
            (exists|k: int|
                0 <= k < self@.cells(bounds).len() && (#[trigger] self@.cells(
                    bounds,
                )[k]).containing_ids.len() == 0) ==> r@.len() == 0,
    {
        let ghost all = self@.cells(bounds);
        let mut ids: Vec<&'a str> = Vec::new();
        let mut first_cell = true;
        let mut cells = self.cells(&bounds);
        proof {
            lemma_bounds_fit(bounds, self@.raster_width, self@.height());
        }
        loop
            invariant
                all == self@.cells(bounds),
                all.len() > 0,
                cells.wf(),
                cells.all() == all,
                0 <= cells.position() <= all.len(),
                first_cell <==> cells.position() == 0,
                first_cell ==> ids@.len() == 0,
                ids_view(ids@).no_duplicates(),
                !first_cell ==> forall|id: Seq<char>|
                    ids_view(ids@).contains(id) <==> contained_in_first(
                        all,
                        cells.position(),
                        id,
                    ),
            ensures
                cells.position() == all.len(),
            decreases all.len() - cells.position(),
        {
            let ghost n = cells.position();
            let ghost before = ids_view(ids@);
            match cells.next() {
                None => {
                    break ;
                },
                Some(cell) => {
                    if first_cell {
                        extend_new_strings(&mut ids, &cell.containing_ids);
                        first_cell = false;
                        proof {
                            assert forall|id: Seq<char>|
                                ids_view(ids@).contains(id) <==> contained_in_first(
                                    all,
                                    n + 1,
                                    id,
                                ) by {
                                assert(all[0] == cell@);
                            }
                        }
                    } else {
                        ids = retain_contained(&ids, cell.containing_ids.as_slice());
                        proof {
                            assert forall|id: Seq<char>|
                                ids_view(ids@).contains(id) <==> contained_in_first(
                                    all,
                                    n + 1,
                                    id,
                                ) by {
                                assert(all[n] == cell@);
                                assert(before.contains(id) <==> contained_in_first(all, n, id));
                            }
                        }
                        if ids.len() == 0 {
                            proof {
                                assert forall|id: Seq<char>|
                                    !self@.contained_in_all(bounds, id) by {
                                    if self@.contained_in_all(bounds, id) {
                                        assert(contained_in_first(all, n + 1, id));
                                        assert(ids_view(ids@).contains(id));
                                    }
                                }
                            }
                            return ids;
                        }
                    }
                },
            }
        }
        proof {
            assert forall|id: Seq<char>|
                ids_view(ids@).contains(id) <==> self@.contained_in_all(bounds, id) by {
                assert(contained_in_first(all, all.len() as int, id) <==> self@.contained_in_all(
                    bounds,
                    id,
                ));
            }
            if exists|k: int|
                0 <= k < all.len() && (#[trigger] all[k]).containing_ids.len() == 0 {
                if ids@.len() > 0 {
                    let id = ids_view(ids@)[0];
                    assert(ids_view(ids@).contains(id));
                    assert(self@.contained_in_all(bounds, id));
                }
            }
        }
        ids
    }

    /// Returns the ids of the regions that contain or at least intersect
    /// the box `bounds`: those that cover a cell of it completely or in
    /// part. Each id comes once.
    pub fn intersecting_ids<'a>(&'a self, bounds: CellBounds) -> (r: Vec<&'a str>)
        requires
            self@.has_cells(bounds),
        ensures
            ids_view(r@).no_duplicates(),
            forall|id: Seq<char>| ids_view(r@).contains(id) <==> self@.touches_any(bounds, id),
    {
        let ghost all = self@.cells(bounds);
        let mut ids: Vec<&'a str> = Vec::new();
        let mut cells = self.cells(&bounds);
        loop
            invariant
                all == self@.cells(bounds),
                cells.wf(),
                cells.all() == all,
                0 <= cells.position() <= all.len(),
                ids_view(ids@).no_duplicates(),
                forall|id: Seq<char>|
                    ids_view(ids@).contains(id) <==> touches_first(all, cells.position(), id),
            ensures
                cells.position() == all.len(),
            decreases all.len() - cells.position(),
        {
            let ghost n = cells.position();
            let ghost before = ids_view(ids@);
            match cells.next() {
                None => {
                    break ;
                },
                Some(cell) => {
                    let more = cell.get_all_ids();
                    extend_new(&mut ids, &more);
                    proof {
                        assert forall|id: Seq<char>|
                            ids_view(ids@).contains(id) <==> touches_first(all, n + 1, id) by {
                            assert(all[n] == cell@);
                            assert(cell@.all_ids() == ids_view(more@));
                            assert(before.contains(id) <==> touches_first(all, n, id));
                            if ids_view(more@).contains(id) {
                                assert(all[n].all_ids().contains(id));
                            }
                            if touches_first(all, n + 1, id) {
                                let k = choose|k: int|
                                    0 <= k < n + 1 && (#[trigger] all[k]).all_ids().contains(id);
                                if k < n {
                                    assert(touches_first(all, n, id));
                                }
                            }
                            if touches_first(all, n, id) {
                                let k = choose|k: int|
                                    0 <= k < n && (#[trigger] all[k]).all_ids().contains(id);
                                assert(0 <= k < n + 1);
                            }
                        }
                    }
                },
            }
        }
        proof {
            assert forall|id: Seq<char>|
                ids_view(ids@).contains(id) <==> self@.touches_any(bounds, id) by {
                assert(touches_first(all, all.len() as int, id) <==> self@.touches_any(bounds, id));
            }
        }
        ids
    }
}

} // verus!
