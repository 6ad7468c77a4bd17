//! The birth and survival rule on a bounded grid whose surroundings are dead.

use vstd::prelude::*;
use crate::grid::{in_grid, ALIVE, DEAD};

verus! {

/// 1 if `(y, x)` lies inside `rows` and holds a live cell, else 0. Positions
/// outside the grid count as dead.
pub open spec fn alive_at(rows: Seq<Seq<i8>>, y: int, x: int) -> int {
    if in_grid(rows, y, x) && rows[y][x] == 1 {
        1
    } else {
        0
    }
}

/// The number of live cells among the up to eight neighbours of `(y, x)`.
pub open spec fn live_neighbors(rows: Seq<Seq<i8>>, y: int, x: int) -> int {
    alive_at(rows, y - 1, x - 1) + alive_at(rows, y - 1, x) + alive_at(rows, y - 1, x + 1)
        + alive_at(rows, y, x - 1) + alive_at(rows, y, x + 1)
        + alive_at(rows, y + 1, x - 1) + alive_at(rows, y + 1, x) + alive_at(rows, y + 1, x + 1)
}

/// The next value of a cell that holds `cell` and has `neighbors` live
/// neighbours: a live cell survives with two or three, a dead cell is born
/// with three, and every other cell is dead.
pub open spec fn next_cell(cell: i8, neighbors: int) -> i8 {
    if cell == 1 && (neighbors == 2 || neighbors == 3) {
        1
    } else if cell == 0 && neighbors == 3 {
        1
    } else {
        0
    }
}

/// The grid after one application of the rule to every cell of `rows`.
pub open spec fn step_rows(rows: Seq<Seq<i8>>) -> Seq<Seq<i8>> {
    Seq::new(
        rows.len(),
        |y: int|
            Seq::new(
                rows[y].len(),
                |x: int| next_cell(rows[y][x], live_neighbors(rows, y, x)),
            ),
    )
}

/// The ninth part `k` of the neighbourhood of `(y, x)`, counted row by row
/// from the upper left: 1 if it is a live neighbour, 0 for the centre.
pub open spec fn neighbor_part(rows: Seq<Seq<i8>>, y: int, x: int, k: int) -> int {
    if k == 4 {
        0
    } else {
        alive_at(rows, y + k / 3 - 1, x + k % 3 - 1)
    }
}

/// The live neighbours of `(y, x)` among the first `k` parts of its
/// neighbourhood.
pub open spec fn live_neighbors_upto(rows: Seq<Seq<i8>>, y: int, x: int, k: int) -> int
    decreases k,
{
    if k <= 0 {
        0
    } else {
        live_neighbors_upto(rows, y, x, k - 1) + neighbor_part(rows, y, x, k - 1)
    }
}

/// All nine parts together are the live neighbours.
pub proof fn lemma_live_neighbors_upto_all(rows: Seq<Seq<i8>>, y: int, x: int)
    ensures
        live_neighbors_upto(rows, y, x, 9) == live_neighbors(rows, y, x),
{
    reveal_with_fuel(live_neighbors_upto, 10);
}

/// The next value of a cell, computed: see [`next_cell`].
pub fn next_state(cell: i8, neighbors: i32) -> (next: i8)
    ensures
        next == next_cell(cell, neighbors as int),
{
    if cell == ALIVE && (neighbors == 2 || neighbors == 3) {
        ALIVE
    } else if cell == DEAD && neighbors == 3 {
        ALIVE
    } else {
        DEAD
    }
}

/// The index `d - 1` steps on from `base`, where it lies in `0..len`: with
/// `d` 0, 1 or 2 that is one back, in place, or one on.
pub fn shifted(base: usize, d: usize, len: usize) -> (r: Option<usize>)
    ensures
        r == if 0 <= base + d - 1 < len {
            Some((base + d - 1) as usize)
        } else {
            None::<usize>
        },
{
    if d == 0 {
        if base >= 1 && base - 1 < len {
            Some(base - 1)
        } else {
            None
        }
    } else {
        match base.checked_add(d - 1) {
            Some(index) => if index < len {
                Some(index)
            } else {
                None
            },
            None => None,
        }
    }
}

} // verus!
