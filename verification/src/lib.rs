//! Reverse search for Conway's Game of Life on a bounded grid: given a
//! generation, find a grid that the rule turns into it in one step.
//!
//! Cells outside the grid are dead for good: the grid does not wrap around.
//!
//! - [`grid`]: the grid of cells, kept in an `ndarray` array.
//! - [`rule`]: the birth and survival rule.
//! - [`life`]: the forward simulator, one generation at a time.
//! - [`patterns`]: the catalog of 3×3 neighbourhoods that the search lays.
//! - [`search`]: what the search looks for, and what is proved of it.
//! - [`solver`]: the search itself.
//! - [`driver`]: the search with random changes to a target that has no
//!   predecessor.
//! - [`space`]: the size of the space that a search faces.
//! - [`text`]: grids as text.

pub mod driver;
pub mod grid;
pub mod life;
pub mod patterns;
pub mod rule;
pub mod search;
pub mod solver;
pub mod space;
pub mod text;

pub use driver::{find_previous_state_with_noise, Rewound};
pub use grid::{Grid, GridError};
pub use life::GameOfLife;
pub use patterns::GameConfig;
pub use solver::GameOfLifeReverser;
