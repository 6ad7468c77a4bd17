use life_reverser::grid::Grid;
use life_reverser::life::GameOfLife;
use life_reverser::rule::{next_state, shifted};

fn game(rows: Vec<Vec<i8>>) -> GameOfLife {
    GameOfLife::new(Grid::from_rows(&rows).unwrap())
}

#[test]
fn rule_survival_and_birth() {
    assert_eq!(next_state(1, 2), 1);
    assert_eq!(next_state(1, 3), 1);
    assert_eq!(next_state(0, 3), 1);
}

#[test]
fn rule_death_and_staying_dead() {
    for neighbors in [0, 1, 4, 5, 6, 7, 8] {
        assert_eq!(next_state(1, neighbors), 0);
    }
    for neighbors in [0, 1, 2, 4, 5, 6, 7, 8] {
        assert_eq!(next_state(0, neighbors), 0);
    }
}

#[test]
fn rule_takes_other_values_for_dead() {
    assert_eq!(next_state(-1, 3), 0);
    assert_eq!(next_state(2, 2), 0);
    assert_eq!(next_state(5, 3), 0);
}

#[test]
fn shifted_stays_inside() {
    assert_eq!(shifted(0, 0, 3), None);
    assert_eq!(shifted(0, 1, 3), Some(0));
    assert_eq!(shifted(0, 2, 3), Some(1));
    assert_eq!(shifted(2, 1, 3), Some(2));
    assert_eq!(shifted(2, 2, 3), None);
    assert_eq!(shifted(3, 0, 3), Some(2));
    assert_eq!(shifted(3, 1, 3), None);
    assert_eq!(shifted(usize::MAX, 2, usize::MAX), None);
    assert_eq!(shifted(usize::MAX, 0, usize::MAX), Some(usize::MAX - 1));
    assert_eq!(shifted(0, 1, 0), None);
}

#[test]
fn shifted_takes_any_offset() {
    assert_eq!(shifted(1, 3, 10), Some(3));
    assert_eq!(shifted(1, 10, 10), None);
    assert_eq!(shifted(1, usize::MAX, usize::MAX), None);
    assert_eq!(shifted(0, usize::MAX, usize::MAX), Some(usize::MAX - 1));
}

#[test]
fn count_neighbors_in_the_middle() {
    let g = game(vec![vec![1, 1, 0], vec![0, 1, 0], vec![0, 0, 1]]);
    assert_eq!(g.count_neighbors(1, 1), 3);
}

#[test]
fn count_neighbors_does_not_count_the_cell_itself() {
    let g = game(vec![vec![1, 1, 1], vec![1, 1, 1], vec![1, 1, 1]]);
    assert_eq!(g.count_neighbors(1, 1), 8);
    assert_eq!(g.count_neighbors(0, 0), 3);
    assert_eq!(g.count_neighbors(1, 0), 5);
    assert_eq!(g.count_neighbors(2, 2), 3);
}

#[test]
fn count_neighbors_takes_x_before_y() {
    let g = game(vec![vec![0, 0, 1], vec![0, 0, 0]]);
    assert_eq!(g.count_neighbors(1, 0), 1);
    assert_eq!(g.count_neighbors(1, 1), 1);
    assert_eq!(g.count_neighbors(0, 1), 0);
    assert_eq!(g.count_neighbors(2, 1), 1);
    assert_eq!(g.count_neighbors(2, 0), 0);
}

#[test]
fn count_neighbors_has_no_wraparound() {
    let g = game(vec![vec![1, 0, 0, 1], vec![0, 0, 0, 0], vec![1, 0, 0, 1]]);
    assert_eq!(g.count_neighbors(0, 1), 2);
    assert_eq!(g.count_neighbors(0, 0), 0);
    assert_eq!(g.count_neighbors(3, 0), 0);
}

#[test]
fn count_neighbors_outside_the_grid() {
    let g = game(vec![vec![1, 1], vec![1, 1]]);
    assert_eq!(g.count_neighbors(2, 0), 2);
    assert_eq!(g.count_neighbors(2, 2), 1);
    assert_eq!(g.count_neighbors(3, 0), 0);
    assert_eq!(g.count_neighbors(usize::MAX, usize::MAX), 0);
}

#[test]
fn count_neighbors_counts_only_live_cells() {
    let g = game(vec![vec![-1, 2, 1], vec![0, 0, 0], vec![5, -1, 1]]);
    assert_eq!(g.count_neighbors(1, 1), 2);
}

#[test]
fn step_turns_a_blinker() {
    let mut g = game(vec![vec![0, 1, 0], vec![0, 1, 0], vec![0, 1, 0]]);
    g.step();
    assert_eq!(g.state.to_rows(), vec![vec![0, 0, 0], vec![1, 1, 1], vec![0, 0, 0]]);
    g.step();
    assert_eq!(g.state.to_rows(), vec![vec![0, 1, 0], vec![0, 1, 0], vec![0, 1, 0]]);
}

#[test]
fn step_keeps_a_block() {
    let rows = vec![vec![0, 0, 0, 0], vec![0, 1, 1, 0], vec![0, 1, 1, 0], vec![0, 0, 0, 0]];
    let mut g = game(rows.clone());
    g.step();
    assert_eq!(g.state.to_rows(), rows);
}

#[test]
fn step_kills_a_lone_cell() {
    let mut g = game(vec![vec![1]]);
    g.step();
    assert_eq!(g.state.to_rows(), vec![vec![0]]);
}

#[test]
fn step_treats_the_border_as_dead() {
    let mut g = game(vec![vec![1, 1], vec![1, 0]]);
    g.step();
    assert_eq!(g.state.to_rows(), vec![vec![1, 1], vec![1, 1]]);
    let mut full = game(vec![vec![1, 1, 1], vec![1, 1, 1], vec![1, 1, 1]]);
    full.step();
    assert_eq!(full.state.to_rows(), vec![vec![1, 0, 1], vec![0, 0, 0], vec![1, 0, 1]]);
}

#[test]
fn step_reads_unknown_cells_as_dead() {
    let mut g = game(vec![vec![-1, 1, 1], vec![-1, 1, 0]]);
    g.step();
    assert_eq!(g.state.to_rows(), vec![vec![0, 1, 1], vec![0, 1, 1]]);
}

#[test]
fn step_keeps_the_shape() {
    let mut g = game(vec![vec![0, 1, 0, 1, 1]]);
    g.step();
    assert_eq!(g.state.nrows(), 1);
    assert_eq!(g.state.ncols(), 5);
    assert_eq!(g.state.to_rows(), vec![vec![0, 0, 0, 0, 0]]);
}

#[test]
fn new_keeps_the_state() {
    let grid = Grid::from_rows(&vec![vec![1, 0], vec![0, 1]]).unwrap();
    let g = GameOfLife::new(grid.clone());
    assert_eq!(g.state, grid);
}
