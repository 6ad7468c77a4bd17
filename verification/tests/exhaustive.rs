use life_reverser::grid::{Grid, ALIVE, DEAD, UNKNOWN};
use life_reverser::life::GameOfLife;
use life_reverser::solver::GameOfLifeReverser;

type Rows = Vec<Vec<i8>>;

fn all_grids(height: usize, width: usize) -> Vec<Rows> {
    let cells = height * width;
    (0..1u32 << cells)
        .map(|bits| {
            (0..height)
                .map(|y| (0..width).map(|x| ((bits >> (y * width + x)) & 1) as i8).collect())
                .collect()
        })
        .collect()
}

fn stepped(rows: &Rows) -> Rows {
    let mut game = GameOfLife::new(Grid::from_rows(rows).unwrap());
    game.step();
    game.state.to_rows()
}

fn cell(rows: &Rows, y: i64, x: i64) -> i8 {
    if y < 0 || x < 0 || y >= rows.len() as i64 || x >= rows[0].len() as i64 {
        0
    } else {
        rows[y as usize][x as usize]
    }
}

fn window_key(rows: &Rows, y: usize, x: usize) -> (i32, i8, u32) {
    let mut population = 0;
    let mut code = 0;
    for dy in 0..3 {
        for dx in 0..3 {
            let value = cell(rows, y as i64 + dy - 1, x as i64 + dx - 1);
            population += value as i32;
            code += (value as u32) << (3 * dy + dx);
        }
    }
    (population, 1 - rows[y][x], code)
}

fn scan_keys(rows: &Rows, flow_y: bool) -> Vec<(i32, i8, u32)> {
    let (height, width) = (rows.len(), rows[0].len());
    let mut keys = Vec::new();
    if flow_y {
        for x in 0..width {
            for y in 0..height {
                keys.push(window_key(rows, y, x));
            }
        }
    } else {
        for y in 0..height {
            for x in 0..width {
                keys.push(window_key(rows, y, x));
            }
        }
    }
    keys
}

fn compare_with_brute_force(height: usize, width: usize) {
    let grids = all_grids(height, width);
    let images: Vec<Rows> = grids.iter().map(stepped).collect();
    for target in grids.iter() {
        let predecessors: Vec<&Rows> =
            grids.iter().zip(images.iter()).filter(|(_, image)| *image == target).map(|(g, _)| g).collect();
        for flow_y in [false, true] {
            let mut reverser = GameOfLifeReverser::new(Grid::from_rows(target).unwrap(), flow_y);
            let first = reverser.find_first_previous_state().map(|g| g.to_rows());
            let expected = predecessors.iter().min_by_key(|rows| scan_keys(rows, flow_y)).map(|rows| (*rows).clone());
            assert_eq!(first, expected);
            let any = reverser.find_previous_state().map(|g| g.to_rows());
            assert_eq!(any.is_some(), !predecessors.is_empty());
            if let Some(found) = any {
                assert!(predecessors.contains(&&found));
            }
        }
    }
}

#[test]
fn every_one_by_one_target_agrees_with_brute_force() {
    compare_with_brute_force(1, 1);
}

#[test]
fn every_one_by_four_target_agrees_with_brute_force() {
    compare_with_brute_force(1, 4);
}

#[test]
fn every_two_by_two_target_agrees_with_brute_force() {
    compare_with_brute_force(2, 2);
}

#[test]
fn every_three_by_two_target_agrees_with_brute_force() {
    compare_with_brute_force(3, 2);
}

#[test]
fn every_two_by_three_target_agrees_with_brute_force() {
    compare_with_brute_force(2, 3);
}

#[test]
fn every_three_by_three_target_agrees_with_brute_force() {
    compare_with_brute_force(3, 3);
}

#[test]
fn cell_values_are_one_zero_and_minus_one() {
    assert_eq!(ALIVE, 1);
    assert_eq!(DEAD, 0);
    assert_eq!(UNKNOWN, -1);
}
