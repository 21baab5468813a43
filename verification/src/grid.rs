//! The grid of cells that a solve works on.

use crate::line_solve::Cell;
use vstd::prelude::*;

verus! {

/// A rectangle of cells, held row by row in an `ndarray::Array2`.
///
/// Verus does not look inside the array. What it knows of a grid is what the
/// functions below say of `grid_cells` and `grid_width`.
#[verifier::external_body]
#[derive(Debug, PartialEq, Eq)]
pub struct Grid {
    cells: ndarray::Array2<Cell>,
}

/// The cells of the grid: `grid_cells(g)[y][x]` is the cell in row `y` and
/// column `x`.
pub uninterp spec fn grid_cells(grid: Grid) -> Seq<Seq<Cell>>;

/// The number of columns of the grid, which its rows do not tell where it
/// has no row.
pub uninterp spec fn grid_width(grid: Grid) -> nat;

/// `ndarray::Array2::from_elem` with the shape `(rows, cols)`: an array of
/// that shape in which every element is `cell`. It panics where the product
/// of the lengths that are not zero is more than `isize::MAX`, and so does
/// the allocation where the elements take more bytes than that; the
/// `requires` leaves both out.
#[verifier::external_body]
fn array_from_elem(rows: usize, cols: usize, cell: Cell) -> (grid: Grid)
    requires
        rows <= isize::MAX,
        cols <= isize::MAX,
        rows * cols * 4 <= isize::MAX,
    ensures
        grid_cells(grid) == Seq::new(rows as nat, |y: int| Seq::new(cols as nat, |x: int| cell)),
        grid_width(grid) == cols,
{
    Grid { cells: ndarray::Array2::from_elem((rows, cols), cell) }
}

/// `ndarray::ArrayBase::nrows` of a two-dimensional array: the length of its
/// first axis. The array is a rectangle, so each of that many rows has as
/// many cells as the grid is wide.
#[verifier::external_body]
fn array_nrows(grid: &Grid) -> (rows: usize)
    ensures
        rows == grid_cells(*grid).len(),
        forall|y: int| 0 <= y < rows ==> (#[trigger] grid_cells(*grid)[y]).len() == grid_width(*grid),
{
    grid.cells.nrows()
}

/// `ndarray::ArrayBase::ncols` of a two-dimensional array: the length of its
/// second axis.
#[verifier::external_body]
fn array_ncols(grid: &Grid) -> (cols: usize)
    ensures
        cols == grid_width(*grid),
{
    grid.cells.ncols()
}

/// Indexing an `ndarray::Array2` with `[[y, x]]`: the element in row `y` and
/// column `x`. It panics where the index is out of bounds, which the
/// `requires` leaves out.
#[verifier::external_body]
fn array_get(grid: &Grid, y: usize, x: usize) -> (cell: Cell)
    requires
        y < grid_cells(*grid).len(),
        x < grid_width(*grid),
    ensures
        cell == grid_cells(*grid)[y as int][x as int],
{
    grid.cells[[y, x]]
}

/// Assigning to an `ndarray::Array2` at `[[y, x]]`: the element in row `y`
/// and column `x` becomes `cell`, and nothing else changes. It panics where
/// the index is out of bounds, which the `requires` leaves out.
#[verifier::external_body]
fn array_put(grid: &mut Grid, y: usize, x: usize, cell: Cell)
    requires
        y < grid_cells(*old(grid)).len(),
        x < grid_width(*old(grid)),
    ensures
        grid_cells(*final(grid)) == grid_cells(*old(grid)).update(
            y as int,
            grid_cells(*old(grid))[y as int].update(x as int, cell),
        ),
        grid_width(*final(grid)) == grid_width(*old(grid)),
{
    grid.cells[[y, x]] = cell;
}

impl Clone for Grid {
    /// `Clone::clone` of an `ndarray::Array2`: an array of the same shape with
    /// a copy of each element.
    #[verifier::external_body]
    fn clone(&self) -> (copy: Grid)
        ensures
            grid_cells(copy) == grid_cells(*self),
            grid_width(copy) == grid_width(*self),
    {
        Grid { cells: self.cells.clone() }
    }
}

/// Every row of the cells is `width` cells long.
pub open spec fn rectangular(cells: Seq<Seq<Cell>>, width: nat) -> bool {
    forall|y: int| 0 <= y < cells.len() ==> (#[trigger] cells[y]).len() == width
}

/// The cells of a row, or of a column from its top down.
pub open spec fn lane_of(cells: Seq<Seq<Cell>>, row: bool, index: int) -> Seq<Cell> {
    if row {
        cells[index]
    } else {
        Seq::new(cells.len(), |y: int| cells[y][index])
    }
}

/// The cells with a whole row or column replaced.
pub open spec fn with_lane(
    cells: Seq<Seq<Cell>>,
    row: bool,
    index: int,
    lane: Seq<Cell>,
) -> Seq<Seq<Cell>> {
    if row {
        cells.update(index, lane)
    } else {
        Seq::new(cells.len(), |y: int| cells[y].update(index, lane[y]))
    }
}

impl View for Grid {
    type V = Seq<Seq<Cell>>;

    open spec fn view(&self) -> Seq<Seq<Cell>> {
        grid_cells(*self)
    }
}

impl Grid {
    /// The number of columns.
    pub open spec fn width(&self) -> nat {
        grid_width(*self)
    }

    /// The number of rows.
    pub open spec fn height(&self) -> nat {
        grid_cells(*self).len()
    }

    /// The grid of `shape.0` rows and `shape.1` columns in which every cell is
    /// `cell`.
    pub fn from_elem(shape: (usize, usize), cell: Cell) -> (grid: Grid)
        requires
            shape.0 <= isize::MAX,
            shape.1 <= isize::MAX,
            shape.0 * shape.1 * 4 <= isize::MAX,
        ensures
            grid@ == Seq::new(shape.0 as nat, |y: int| Seq::new(shape.1 as nat, |x: int| cell)),
            grid.width() == shape.1,
            grid.height() == shape.0,
            rectangular(grid@, grid.width()),
    {
        array_from_elem(shape.0, shape.1, cell)
    }

    pub fn nrows(&self) -> (rows: usize)
        ensures
            rows == self.height(),
            rectangular(self@, self.width()),
    {
        array_nrows(self)
    }

    pub fn ncols(&self) -> (cols: usize)
        ensures
            cols == self.width(),
    {
        array_ncols(self)
    }

    /// The cell in row `y` and column `x`.
    pub fn get(&self, y: usize, x: usize) -> (cell: Cell)
        requires
            y < self.height(),
            x < self.width(),
        ensures
            cell == self@[y as int][x as int],
    {
        array_get(self, y, x)
    }

    /// Puts `cell` in row `y` and column `x`.
    pub fn set(&mut self, y: usize, x: usize, cell: Cell)
        requires
            y < old(self).height(),
            x < old(self).width(),
        ensures
            final(self)@ == old(self)@.update(y as int, old(self)@[y as int].update(x as int, cell)),
            final(self).width() == old(self).width(),
            final(self).height() == old(self).height(),
    {
        array_put(self, y, x, cell)
    }

    /// The number of cells of a row, or of a column.
    pub fn lane_len(&self, row: bool) -> (len: usize)
        ensures
            len == if row {
                self.width()
            } else {
                self.height()
            },
    {
        if row {
            self.ncols()
        } else {
            self.nrows()
        }
    }

    /// The cell at `at` of a row, or of a column.
    pub fn lane_cell(&self, row: bool, index: usize, at: usize) -> (cell: Cell)
        requires
            row ==> index < self.height() && at < self.width(),
            !row ==> index < self.width() && at < self.height(),
        ensures
            rectangular(self@, self.width()) ==> cell == lane_of(self@, row, index as int)[at as int],
    {
        if row {
            self.get(index, at)
        } else {
            self.get(at, index)
        }
    }

    /// A copy of the cells of a row, or of a column from its top down.
    pub fn lane(&self, row: bool, index: usize) -> (lane: Vec<Cell>)
        requires
            row ==> index < self.height(),
            !row ==> index < self.width(),
        ensures
            lane@ == lane_of(self@, row, index as int),
            rectangular(self@, self.width()),
            lane@.len() == if row {
                self.width()
            } else {
                self.height()
            },
    {
        let rows = self.nrows();
        let len = self.lane_len(row);
        let mut lane: Vec<Cell> = Vec::with_capacity(len);
        let mut at: usize = 0;
        while at < len
            invariant
                rectangular(self@, self.width()),
                rows == self.height(),
                row ==> index < self.height() && len == self.width(),
                !row ==> index < self.width() && len == self.height(),
                at <= len,
                lane@.len() == at,
                forall|i: int| 0 <= i < at ==> #[trigger] lane@[i] == lane_of(self@, row, index as int)[i],
            decreases len - at,
        {
            lane.push(self.lane_cell(row, index, at));
            at = at + 1;
        }
        proof {
            assert(lane@ =~= lane_of(self@, row, index as int));
        }
        lane
    }

    /// Puts the cells of `lane` into a row, or into a column from its top down.
    pub fn set_lane(&mut self, row: bool, index: usize, lane: &Vec<Cell>)
        requires
            row ==> index < old(self).height() && lane@.len() == old(self).width(),
            !row ==> index < old(self).width() && lane@.len() == old(self).height(),
        ensures
            final(self)@ =~= with_lane(old(self)@, row, index as int, lane@),
            final(self).width() == old(self).width(),
            final(self).height() == old(self).height(),
            rectangular(final(self)@, final(self).width()),
    {
        let rows = self.nrows();
        let len = lane.len();
        let ghost before = self@;
        let mut at: usize = 0;
        while at < len
            invariant
                rectangular(self@, self.width()),
                rectangular(before, self.width()),
                self.width() == old(self).width(),
                self.height() == old(self).height(),
                before == old(self)@,
                before.len() == self@.len(),
                row ==> index < self.height() && len == self.width(),
                !row ==> index < self.width() && len == self.height(),
                len == lane@.len(),
                at <= len,
                row ==> forall|y: int| 0 <= y < before.len() && y != index ==> self@[y] == before[y],
                row ==> forall|x: int|
                    0 <= x < len ==> self@[index as int][x] == if x < at {
                        lane@[x]
                    } else {
                        before[index as int][x]
                    },
                !row ==> forall|y: int|
                    0 <= y < before.len() ==> #[trigger] self@[y] == if y < at {
                        before[y].update(index as int, lane@[y])
                    } else {
                        before[y]
                    },
            decreases len - at,
        {
            let ghost cur = self@;
            if row {
                self.set(index, at, lane[at]);
                proof {
                    assert forall|y: int| 0 <= y < self@.len() implies (#[trigger] self@[y]).len()
                        == self.width() by {
                        assert(cur[y].len() == self.width());
                    }
                }
            } else {
                self.set(at, index, lane[at]);
                proof {
                    assert forall|y: int| 0 <= y < self@.len() implies (#[trigger] self@[y]).len()
                        == self.width() by {
                        assert(cur[y].len() == self.width());
                    }
                }
            }
            at = at + 1;
        }
        proof {
            let goal = with_lane(before, row, index as int, lane@);
            if row {
                assert(self@[index as int] =~= lane@);
                assert(self@ =~= goal);
            } else {
                assert(self@ =~= goal);
            }
        }
    }
}

} // verus!
