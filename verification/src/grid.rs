//! Rectangular grids of cells, stored in an `ndarray::Array2<i8>`.
//!
//! A cell holds `1` (alive), `0` (dead) or `-1` (not yet known). Verus cannot
//! look inside the array, so what a grid holds is named by [`grid_rows`] and
//! [`grid_width`], and the few array operations the crate needs are given
//! contracts over those two names. Everything else in the crate is proved
//! from these contracts.

use vstd::prelude::*;
use ndarray::Array2;

verus! {

/// The value of a live cell.
pub const ALIVE: i8 = 1;

/// The value of a dead cell.
pub const DEAD: i8 = 0;

/// The value of a cell that the search has not decided yet.
pub const UNKNOWN: i8 = -1;

/// A grid of cells with a fixed number of rows and columns.
///
/// The cells are kept in an `ndarray::Array2<i8>`. The verifier takes the
/// type as opaque: it knows of a grid only what [`grid_rows`] and
/// [`grid_width`] say of it. Two grids are equal with `==` when they have
/// the same shape and the same cells.
#[verifier::external_body]
#[derive(Debug, PartialEq, Eq)]
pub struct Grid {
    cells: Array2<i8>,
}

/// The rows of a grid from top to bottom, each from left to right.
pub uninterp spec fn grid_rows(g: Grid) -> Seq<Seq<i8>>;

/// The number of columns of a grid (also defined where it has no rows).
pub uninterp spec fn grid_width(g: Grid) -> nat;

/// Why a grid could not be built from rows of cells.
#[derive(Clone, Copy, Debug, PartialEq, Eq, Structural)]
pub enum GridError {
    /// There is no row, or the first row has no cell.
    Empty,
    /// Some row is not as long as the first one.
    Ragged,
    /// The grid would hold more cells than an array can address.
    TooLarge,
}

/// Every row of `rows` has `width` cells.
pub open spec fn rectangular(rows: Seq<Seq<i8>>, width: nat) -> bool {
    forall|y: int| 0 <= y < rows.len() ==> (#[trigger] rows[y]).len() == width
}

/// `rows` is a rectangle of `height` rows and `width` columns.
pub open spec fn has_shape(rows: Seq<Seq<i8>>, height: nat, width: nat) -> bool {
    rows.len() == height && rectangular(rows, width)
}

/// Position `(y, x)` lies inside `rows`.
pub open spec fn in_grid(rows: Seq<Seq<i8>>, y: int, x: int) -> bool {
    0 <= y < rows.len() && 0 <= x < rows[y].len()
}

/// Every cell of `rows` is dead or alive.
pub open spec fn binary(rows: Seq<Seq<i8>>) -> bool {
    forall|y: int, x: int| in_grid(rows, y, x) ==> is_bit(#[trigger] rows[y][x])
}

/// `v` is the value of a dead or of a live cell.
pub open spec fn is_bit(v: i8) -> bool {
    v == 0 || v == 1
}

/// A cell turned around: alive where `v` is dead, else dead.
pub open spec fn flipped(v: i8) -> i8 {
    if v == 0 {
        1
    } else {
        0
    }
}

/// `rows` with the cell at `(y, x)` turned around.
pub open spec fn flip_at(rows: Seq<Seq<i8>>, y: int, x: int) -> Seq<Seq<i8>> {
    rows.update(y, rows[y].update(x, flipped(rows[y][x])))
}

/// `height` rows of `width` cells that all hold `v`.
pub open spec fn uniform_rows(height: nat, width: nat, v: i8) -> Seq<Seq<i8>> {
    Seq::new(height, |y: int| Seq::new(width, |x: int| v))
}

/// The product of the axis lengths, each empty axis counted as one, is within
/// what `ndarray` accepts for a new array.
pub open spec fn shape_fits(height: nat, width: nat) -> bool {
    (if height == 0 { 1 } else { height as int }) * (if width == 0 { 1 } else { width as int })
        <= isize::MAX
}

/// The cells of `rows`, each row by its view.
pub open spec fn rows_of(rows: Seq<Vec<i8>>) -> Seq<Seq<i8>> {
    Seq::new(rows.len(), |y: int| rows[y]@)
}

/// Why `rows` cannot become a grid, if they cannot.
pub open spec fn shape_error(rows: Seq<Seq<i8>>) -> Option<GridError> {
    if rows.len() == 0 || rows[0].len() == 0 {
        Some(GridError::Empty)
    } else if !rectangular(rows, rows[0].len()) {
        Some(GridError::Ragged)
    } else if !shape_fits(rows.len(), rows[0].len()) {
        Some(GridError::TooLarge)
    } else {
        None
    }
}

impl View for Grid {
    type V = Seq<Seq<i8>>;

    open spec fn view(&self) -> Seq<Seq<i8>> {
        grid_rows(*self)
    }
}

/// Calls `ndarray::Array2::zeros` with the shape `(height, width)`.
///
/// Trusted: the new array has that shape and every element is zero. `zeros`
/// panics when the product of the non-zero axis lengths overflows `isize`,
/// which `requires` excludes.
#[verifier::external_body]
pub(crate) fn array_zeros(height: usize, width: usize) -> (g: Grid)
    requires
        shape_fits(height as nat, width as nat),
    ensures
        grid_rows(g) == uniform_rows(height as nat, width as nat, 0i8),
        grid_width(g) == width,
{
    Grid { cells: Array2::zeros((height, width)) }
}

/// Calls `Clone::clone` of `ndarray::ArrayBase`.
///
/// Trusted: the copy has the same shape and the same elements.
#[verifier::external_body]
pub(crate) fn array_clone(g: &Grid) -> (copy: Grid)
    ensures
        grid_rows(copy) == grid_rows(*g),
        grid_width(copy) == grid_width(*g),
{
    Grid { cells: g.cells.clone() }
}

/// Calls `ndarray::ArrayBase::fill`.
///
/// Trusted: the shape stays and every element becomes `v`.
#[verifier::external_body]
pub(crate) fn array_fill(g: &mut Grid, v: i8)
    ensures
        grid_rows(*final(g)) == uniform_rows(grid_rows(*old(g)).len(), grid_width(*old(g)), v),
        grid_width(*final(g)) == grid_width(*old(g)),
{
    g.cells.fill(v)
}

/// Calls `ndarray::ArrayBase::nrows`.
///
/// Trusted: the result is the number of rows.
#[verifier::external_body]
pub(crate) fn array_nrows(g: &Grid) -> (n: usize)
    ensures
        n == grid_rows(*g).len(),
{
    g.cells.nrows()
}

/// Calls `ndarray::ArrayBase::ncols`.
///
/// Trusted: the result is the number of columns, and every row has that many
/// elements (a two-dimensional array is a rectangle).
#[verifier::external_body]
pub(crate) fn array_ncols(g: &Grid) -> (n: usize)
    ensures
        n == grid_width(*g),
        rectangular(grid_rows(*g), n as nat),
{
    g.cells.ncols()
}

/// Reads `g.cells[[y, x]]` (`Index` of `ndarray::ArrayBase`).
///
/// Trusted: the result is the element in row `y`, column `x`. Indexing
/// panics out of bounds, which `requires` excludes.
#[verifier::external_body]
pub(crate) fn array_get(g: &Grid, y: usize, x: usize) -> (v: i8)
    requires
        in_grid(grid_rows(*g), y as int, x as int),
    ensures
        v == grid_rows(*g)[y as int][x as int],
{
    g.cells[[y, x]]
}

/// Writes `g.cells[[y, x]]` (`IndexMut` of `ndarray::ArrayBase`).
///
/// Trusted: the element in row `y`, column `x` becomes `v`, and nothing else
/// changes. Indexing panics out of bounds, which `requires` excludes.
#[verifier::external_body]
pub(crate) fn array_set(g: &mut Grid, y: usize, x: usize, v: i8)
    requires
        in_grid(grid_rows(*old(g)), y as int, x as int),
    ensures
        grid_rows(*final(g)) == grid_rows(*old(g)).update(
            y as int,
            grid_rows(*old(g))[y as int].update(x as int, v),
        ),
        grid_width(*final(g)) == grid_width(*old(g)),
{
    g.cells[[y, x]] = v;
}

impl Grid {
    /// The number of rows.
    pub open spec fn height(&self) -> nat {
        self@.len()
    }

    /// The number of columns.
    pub open spec fn width(&self) -> nat {
        grid_width(*self)
    }

    /// The number of rows.
    pub fn nrows(&self) -> (n: usize)
        ensures
            n == self.height(),
    {
        array_nrows(self)
    }

    /// The number of columns. Every row has this many cells.
    pub fn ncols(&self) -> (n: usize)
        ensures
            n == self.width(),
            rectangular(self@, n as nat),
    {
        array_ncols(self)
    }

    /// The cell in row `y`, column `x`, or `None` outside the grid.
    pub fn get(&self, y: usize, x: usize) -> (cell: Option<i8>)
        ensures
            cell == if in_grid(self@, y as int, x as int) {
                Some(self@[y as int][x as int])
            } else {
                None
            },
    {
        let width = array_ncols(self);
        if y < array_nrows(self) && x < width {
            Some(array_get(self, y, x))
        } else {
            None
        }
    }

    /// Sets the cell in row `y`, column `x` to `v`. Returns whether the
    /// position lies inside the grid; outside, nothing changes.
    pub fn set(&mut self, y: usize, x: usize, v: i8) -> (inside: bool)
        ensures
            inside == in_grid(old(self)@, y as int, x as int),
            final(self).width() == old(self).width(),
            final(self)@ == if inside {
                old(self)@.update(y as int, old(self)@[y as int].update(x as int, v))
            } else {
                old(self)@
            },
    {
        let width = array_ncols(self);
        if y < array_nrows(self) && x < width {
            array_set(self, y, x, v);
            true
        } else {
            false
        }
    }


    /// Whether every cell is dead or alive.
    pub fn is_binary(&self) -> (yes: bool)
        ensures
            yes == binary(self@),
    {
        let height = array_nrows(self);
        let width = array_ncols(self);
        let mut y: usize = 0;
        while y < height
            invariant
                y <= height,
                has_shape(self@, height as nat, width as nat),
                forall|r: int, c: int|
                    0 <= r < y && 0 <= c < width ==> is_bit(#[trigger] self@[r][c]),
            decreases height - y,
        {
            let mut x: usize = 0;
            while x < width
                invariant
                    y < height,
                    x <= width,
                    has_shape(self@, height as nat, width as nat),
                    forall|r: int, c: int|
                        (0 <= r < y && 0 <= c < width) || (r == y && 0 <= c < x) ==> is_bit(
                            #[trigger] self@[r][c],
                        ),
                decreases width - x,
            {
                let cell = array_get(self, y, x);
                if cell != DEAD && cell != ALIVE {
                    return false;
                }
                x += 1;
            }
            y += 1;
        }
        true
    }

    /// Whether two grids have the same shape and hold the same cells.
    pub fn same_as(&self, other: &Grid) -> (same: bool)
        ensures
            same == (self@ == other@ && self.width() == other.width()),
    {
        let height = array_nrows(self);
        let width = array_ncols(self);
        if array_nrows(other) != height || array_ncols(other) != width {
            return false;
        }
        let mut y: usize = 0;
        while y < height
            invariant
                y <= height,
                has_shape(self@, height as nat, width as nat),
                has_shape(other@, height as nat, width as nat),
                forall|r: int| 0 <= r < y ==> (#[trigger] self@[r]) == other@[r],
            decreases height - y,
        {
            let mut x: usize = 0;
            while x < width
                invariant
                    y < height,
                    x <= width,
                    has_shape(self@, height as nat, width as nat),
                    has_shape(other@, height as nat, width as nat),
                    forall|c: int|
                        0 <= c < x ==> (#[trigger] self@[y as int][c]) == other@[y as int][c],
                decreases width - x,
            {
                if array_get(self, y, x) != array_get(other, y, x) {
                    return false;
                }
                x += 1;
            }
            assert(self@[y as int] =~= other@[y as int]);
            y += 1;
        }
        assert(self@ =~= other@);
        true
    }

    /// Turns the cell in row `y`, column `x` around: a dead cell becomes
    /// alive, every other cell dead. Returns whether the position lies
    /// inside the grid; outside, nothing changes.
    pub fn flip(&mut self, y: usize, x: usize) -> (inside: bool)
        ensures
            inside == in_grid(old(self)@, y as int, x as int),
            final(self).width() == old(self).width(),
            final(self)@ == if inside {
                flip_at(old(self)@, y as int, x as int)
            } else {
                old(self)@
            },
    {
        let width = array_ncols(self);
        if y < array_nrows(self) && x < width {
            let cell = array_get(self, y, x);
            array_set(self, y, x, if cell == DEAD { ALIVE } else { DEAD });
            true
        } else {
            false
        }
    }

    /// A grid with the given rows, or the reason why there is none: the
    /// rows must number at least one, hold at least one cell each, and all
    /// be of one length.
    pub fn from_rows(rows: &Vec<Vec<i8>>) -> (built: Result<Grid, GridError>)
        ensures
            match built {
                Ok(grid) => {
                    &&& shape_error(rows_of(rows@)) is None
                    &&& grid@ == rows_of(rows@)
                    &&& grid.width() == rows@[0].len()
                },
                Err(error) => shape_error(rows_of(rows@)) == Some(error),
            },
    {
        let height = rows.len();
        if height == 0 {
            return Err(GridError::Empty);
        }
        let width = rows[0].len();
        assert(rows_of(rows@)[0].len() == width);
        if width == 0 {
            return Err(GridError::Empty);
        }
        let mut y: usize = 0;
        while y < height
            invariant
                height == rows.len(),
                height >= 1,
                width == rows@[0].len(),
                width >= 1,
                y <= height,
                forall|r: int| 0 <= r < y ==> (#[trigger] rows@[r]).len() == width,
            decreases height - y,
        {
            if rows[y].len() != width {
                assert(rows_of(rows@)[y as int].len() != width);
                assert(!rectangular(rows_of(rows@), width as nat));
                return Err(GridError::Ragged);
            }
            y += 1;
        }
        assert(rectangular(rows_of(rows@), width as nat));
        let fits = match height.checked_mul(width) {
            Some(cells) => cells <= isize::MAX as usize,
            None => false,
        };
        if !fits {
            return Err(GridError::TooLarge);
        }
        let mut grid = array_zeros(height, width);
        let mut y: usize = 0;
        while y < height
            invariant
                height == rows.len(),
                y <= height,
                forall|r: int| 0 <= r < height ==> (#[trigger] rows@[r]).len() == width,
                has_shape(grid@, height as nat, width as nat),
                grid.width() == width,
                forall|r: int| 0 <= r < y ==> (#[trigger] grid@[r]) == rows@[r]@,
            decreases height - y,
        {
            let mut x: usize = 0;
            while x < width
                invariant
                    height == rows.len(),
                    y < height,
                    x <= width,
                    forall|r: int| 0 <= r < height ==> (#[trigger] rows@[r]).len() == width,
                    has_shape(grid@, height as nat, width as nat),
                    grid.width() == width,
                    forall|r: int| 0 <= r < y ==> (#[trigger] grid@[r]) == rows@[r]@,
                    forall|c: int|
                        0 <= c < x ==> (#[trigger] grid@[y as int][c]) == rows@[y as int]@[c],
                decreases width - x,
            {
                let ghost before = grid@;
                array_set(&mut grid, y, x, rows[y][x]);
                assert forall|r: int| 0 <= r < height implies (#[trigger] grid@[r]).len()
                    == width by {
                    assert(before[r].len() == width);
                }
                assert forall|r: int| 0 <= r < y implies (#[trigger] grid@[r]) == rows@[r]@ by {
                    assert(before[r] == rows@[r]@);
                }
                x += 1;
            }
            assert(grid@[y as int] =~= rows@[y as int]@);
            y += 1;
        }
        assert(grid@ =~= rows_of(rows@));
        Ok(grid)
    }

    /// The rows of the grid, from top to bottom.
    pub fn to_rows(&self) -> (rows: Vec<Vec<i8>>)
        ensures
            rows_of(rows@) == self@,
    {
        let height = array_nrows(self);
        let width = array_ncols(self);
        let mut rows: Vec<Vec<i8>> = Vec::new();
        let mut y: usize = 0;
        while y < height
            invariant
                y <= height,
                has_shape(self@, height as nat, width as nat),
                rows.len() == y,
                forall|r: int| 0 <= r < y ==> (#[trigger] rows@[r])@ == self@[r],
            decreases height - y,
        {
            let mut row: Vec<i8> = Vec::new();
            let mut x: usize = 0;
            while x < width
                invariant
                    y < height,
                    x <= width,
                    has_shape(self@, height as nat, width as nat),
                    row.len() == x,
                    forall|c: int| 0 <= c < x ==> (#[trigger] row@[c]) == self@[y as int][c],
                decreases width - x,
            {
                row.push(array_get(self, y, x));
                x += 1;
            }
            assert(row@ =~= self@[y as int]);
            rows.push(row);
            y += 1;
        }
        assert(rows_of(rows@) =~= self@);
        rows
    }
}

impl Clone for Grid {
    /// A copy of the grid: the same shape and the same cells.
    fn clone(&self) -> (copy: Grid)
        ensures
            copy@ == self@,
            copy.width() == self.width(),
    {
        array_clone(self)
    }
}

} // verus!
