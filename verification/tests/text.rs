use life_reverser::grid::{Grid, GridError};
use life_reverser::text::{parse_grid, parse_rows};

#[test]
fn parse_rows_reads_cells_line_by_line() {
    assert_eq!(parse_rows("#-\n-#\n"), vec![vec![1, 0], vec![0, 1]]);
    assert_eq!(parse_rows("#-\n-#"), vec![vec![1, 0], vec![0, 1]]);
}

#[test]
fn parse_rows_passes_over_other_characters() {
    assert_eq!(parse_rows("# - x\r\n-?#\r\n"), vec![vec![1, 0], vec![0, 1]]);
    assert_eq!(parse_rows("é#ü-\n"), vec![vec![1, 0]]);
}

#[test]
fn parse_rows_keeps_empty_lines() {
    assert_eq!(parse_rows("#\n\n-\n"), vec![vec![1], Vec::new(), vec![0]]);
    assert_eq!(parse_rows("\n"), vec![Vec::<i8>::new()]);
    assert_eq!(parse_rows("abc"), vec![Vec::<i8>::new()]);
    assert_eq!(parse_rows("#\n "), vec![vec![1], Vec::new()]);
}

#[test]
fn parse_rows_of_nothing_is_nothing() {
    assert_eq!(parse_rows(""), Vec::<Vec<i8>>::new());
}

#[test]
fn parse_grid_builds_the_grid() {
    let grid = parse_grid("-#-\n-#-\n-#-\n").unwrap();
    assert_eq!(grid, Grid::from_rows(&vec![vec![0, 1, 0], vec![0, 1, 0], vec![0, 1, 0]]).unwrap());
}

#[test]
fn parse_grid_rejects_text_without_cells() {
    assert_eq!(parse_grid(""), Err(GridError::Empty));
    assert_eq!(parse_grid("\n##\n"), Err(GridError::Empty));
    assert_eq!(parse_grid("no cells here\n"), Err(GridError::Empty));
}

#[test]
fn parse_grid_rejects_lines_of_different_length() {
    assert_eq!(parse_grid("##\n#\n"), Err(GridError::Ragged));
    assert_eq!(parse_grid("##\n\n##\n"), Err(GridError::Ragged));
}
