use life_reverser::grid::{Grid, GridError};

fn grid(rows: Vec<Vec<i8>>) -> Grid {
    Grid::from_rows(&rows).unwrap()
}

#[test]
fn from_rows_keeps_every_cell() {
    let rows = vec![vec![1, 0, -1], vec![0, 1, 5]];
    let g = grid(rows.clone());
    assert_eq!(g.nrows(), 2);
    assert_eq!(g.ncols(), 3);
    assert_eq!(g.to_rows(), rows);
    assert_eq!(g.get(0, 0), Some(1));
    assert_eq!(g.get(0, 2), Some(-1));
    assert_eq!(g.get(1, 2), Some(5));
}

#[test]
fn from_rows_rejects_no_rows() {
    assert_eq!(Grid::from_rows(&Vec::new()), Err(GridError::Empty));
}

#[test]
fn from_rows_rejects_an_empty_first_row() {
    assert_eq!(Grid::from_rows(&vec![Vec::new(), vec![1]]), Err(GridError::Empty));
    assert_eq!(Grid::from_rows(&vec![Vec::new()]), Err(GridError::Empty));
}

#[test]
fn from_rows_rejects_rows_of_different_length() {
    assert_eq!(Grid::from_rows(&vec![vec![1, 0], vec![1]]), Err(GridError::Ragged));
    assert_eq!(Grid::from_rows(&vec![vec![1], vec![1, 0]]), Err(GridError::Ragged));
    assert_eq!(Grid::from_rows(&vec![vec![1, 0], Vec::new()]), Err(GridError::Ragged));
}

#[test]
fn get_outside_the_grid_is_none() {
    let g = grid(vec![vec![1, 0], vec![0, 1], vec![1, 1]]);
    assert_eq!(g.get(3, 0), None);
    assert_eq!(g.get(0, 2), None);
    assert_eq!(g.get(usize::MAX, usize::MAX), None);
    assert_eq!(g.get(2, 1), Some(1));
}

#[test]
fn set_changes_one_cell_only() {
    let mut g = grid(vec![vec![0, 0, 0], vec![0, 0, 0]]);
    assert!(g.set(1, 2, 1));
    assert_eq!(g.to_rows(), vec![vec![0, 0, 0], vec![0, 0, 1]]);
    assert!(g.set(0, 0, -1));
    assert_eq!(g.to_rows(), vec![vec![-1, 0, 0], vec![0, 0, 1]]);
}

#[test]
fn set_outside_the_grid_changes_nothing() {
    let mut g = grid(vec![vec![0, 1], vec![1, 0]]);
    assert!(!g.set(2, 0, 1));
    assert!(!g.set(0, 2, 1));
    assert_eq!(g.to_rows(), vec![vec![0, 1], vec![1, 0]]);
}

#[test]
fn clone_is_equal_and_independent() {
    let source = grid(vec![vec![1, 0], vec![0, 1]]);
    let mut copy = source.clone();
    assert_eq!(copy, source);
    assert!(copy.set(0, 1, 1));
    assert_ne!(copy, source);
    assert_eq!(source.to_rows(), vec![vec![1, 0], vec![0, 1]]);
    assert_eq!(copy.to_rows(), vec![vec![1, 1], vec![0, 1]]);
}

#[test]
fn grids_of_different_shape_differ() {
    assert_ne!(grid(vec![vec![0, 0]]), grid(vec![vec![0], vec![0]]));
    assert_eq!(grid(vec![vec![0, 0]]), grid(vec![vec![0, 0]]));
}

#[test]
fn same_as_compares_shape_and_cells() {
    let g = grid(vec![vec![1, 0], vec![0, -1]]);
    assert!(g.same_as(&g.clone()));
    assert!(!g.same_as(&grid(vec![vec![1, 0], vec![0, 1]])));
    assert!(!g.same_as(&grid(vec![vec![1, 0]])));
    assert!(!grid(vec![vec![0, 0]]).same_as(&grid(vec![vec![0], vec![0]])));
}

#[test]
fn is_binary_looks_at_every_cell() {
    assert!(grid(vec![vec![1, 0], vec![0, 1]]).is_binary());
    assert!(!grid(vec![vec![1, 0], vec![0, -1]]).is_binary());
    assert!(!grid(vec![vec![2, 0], vec![0, 0]]).is_binary());
}
