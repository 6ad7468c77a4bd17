//! The forward simulator: one generation at a time.

use vstd::prelude::*;
use crate::grid::{array_get, array_set, has_shape, Grid};
use crate::rule::{
    lemma_live_neighbors_upto_all, live_neighbors, live_neighbors_upto, next_cell, next_state,
    shifted, step_rows,
};

verus! {

/// A grid of cells that steps forward by the birth and survival rule.
pub struct GameOfLife {
    /// The current generation.
    pub state: Grid,
}

impl GameOfLife {
    /// A simulator that starts from `initial_state`.
    pub fn new(initial_state: Grid) -> (game: GameOfLife)
        ensures
            game.state == initial_state,
    {
        GameOfLife { state: initial_state }
    }

    /// Replaces the current generation by the next one: every cell is judged
    /// by its own value and the number of its live neighbours, where cells
    /// outside the grid are dead.
    pub fn step(&mut self)
        ensures
            final(self).state@ == step_rows(old(self).state@),
            final(self).state.width() == old(self).state.width(),
    {
        let mut new_state = self.state.clone();
        let height = self.state.nrows();
        let width = self.state.ncols();
        let mut y: usize = 0;
        while y < height
            invariant
                *self == *old(self),
                has_shape(self.state@, height as nat, width as nat),
                y <= height,
                new_state.width() == width,
                has_shape(new_state@, height as nat, width as nat),
                forall|r: int, c: int|
                    0 <= r < y && 0 <= c < width ==> #[trigger] new_state@[r][c] == next_cell(
                        self.state@[r][c],
                        live_neighbors(self.state@, r, c),
                    ),
            decreases height - y,
        {
            let mut x: usize = 0;
            while x < width
                invariant
                    *self == *old(self),
                    has_shape(self.state@, height as nat, width as nat),
                    y < height,
                    x <= width,
                    new_state.width() == width,
                    has_shape(new_state@, height as nat, width as nat),
                    forall|r: int, c: int|
                        (0 <= r < y && 0 <= c < width) || (r == y && 0 <= c < x)
                            ==> #[trigger] new_state@[r][c] == next_cell(
                            self.state@[r][c],
                            live_neighbors(self.state@, r, c),
                        ),
                decreases width - x,
            {
                let neighbors = self.count_neighbors(x, y);
                let cell = array_get(&self.state, y, x);
                let ghost before = new_state@;
                array_set(&mut new_state, y, x, next_state(cell, neighbors));
                assert forall|r: int| 0 <= r < new_state@.len() implies (
                #[trigger] new_state@[r]).len() == width by {
                    assert(before[r].len() == width);
                }
                x += 1;
            }
            y += 1;
        }
        assert(new_state@ =~~= step_rows(self.state@));
        self.state = new_state;
    }

    /// The number of live cells among the up to eight neighbours of the cell
    /// in column `x` of row `y`; cells outside the grid are dead.
    pub fn count_neighbors(&self, x: usize, y: usize) -> (count: i32)
        ensures
            count == live_neighbors(self.state@, y as int, x as int),
    {
        let height = self.state.nrows();
        let width = self.state.ncols();
        let mut count: i32 = 0;
        let mut k: usize = 0;
        while k < 9
            invariant
                has_shape(self.state@, height as nat, width as nat),
                k <= 9,
                0 <= count <= k,
                count == live_neighbors_upto(self.state@, y as int, x as int, k as int),
            decreases 9 - k,
        {
            if k != 4 {
                let row = shifted(y, k / 3, height);
                let column = shifted(x, k % 3, width);
                if let (Some(new_y), Some(new_x)) = (row, column) {
                    if array_get(&self.state, new_y, new_x) == 1 {
                        count += 1;
                    }
                }
            }
            k += 1;
        }
        proof {
            lemma_live_neighbors_upto_all(self.state@, y as int, x as int);
        }
        count
    }
}

} // verus!
