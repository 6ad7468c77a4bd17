use life_reverser::grid::Grid;
use life_reverser::life::GameOfLife;
use life_reverser::solver::GameOfLifeReverser;

fn grid(rows: Vec<Vec<i8>>) -> Grid {
    Grid::from_rows(&rows).unwrap()
}

fn all_dead(height: usize, width: usize) -> Grid {
    grid(vec![vec![0; width]; height])
}

fn stepped(grid: &Grid) -> Grid {
    let mut game = GameOfLife::new(grid.clone());
    game.step();
    game.state
}

fn is_binary(grid: &Grid) -> bool {
    grid.to_rows().iter().flatten().all(|&cell| cell == 0 || cell == 1)
}

fn block() -> Grid {
    grid(vec![vec![0, 0, 0, 0], vec![0, 1, 1, 0], vec![0, 1, 1, 0], vec![0, 0, 0, 0]])
}

fn blinker() -> Grid {
    grid(vec![vec![0, 0, 0], vec![1, 1, 1], vec![0, 0, 0]])
}

#[test]
fn all_dead_three_by_three_has_a_predecessor() {
    let target = all_dead(3, 3);
    let found = GameOfLifeReverser::new(target.clone(), false).find_previous_state().unwrap();
    assert_eq!(found.nrows(), 3);
    assert_eq!(found.ncols(), 3);
    assert!(is_binary(&found));
    assert_eq!(stepped(&found), target);
}

#[test]
fn block_still_life_has_a_predecessor() {
    let target = block();
    assert_eq!(stepped(&target), target);
    let found = GameOfLifeReverser::new(target.clone(), false).find_previous_state().unwrap();
    assert!(is_binary(&found));
    assert_eq!(stepped(&found), target);
}

#[test]
fn lone_live_cell_has_no_predecessor() {
    let target = grid(vec![vec![1]]);
    assert_eq!(GameOfLifeReverser::new(target.clone(), false).find_previous_state(), None);
    assert_eq!(GameOfLifeReverser::new(target.clone(), true).find_previous_state(), None);
    assert_eq!(GameOfLifeReverser::new(target.clone(), false).find_first_previous_state(), None);
    assert_eq!(GameOfLifeReverser::new(target, true).find_first_previous_state(), None);
}

#[test]
fn lone_dead_cell_has_a_predecessor() {
    let target = grid(vec![vec![0]]);
    let found = GameOfLifeReverser::new(target.clone(), false).find_first_previous_state();
    assert_eq!(found, Some(grid(vec![vec![0]])));
}

#[test]
fn all_dead_targets_of_any_size_have_a_predecessor() {
    for (height, width) in [(1, 1), (1, 4), (4, 1), (2, 5), (5, 2), (4, 4)] {
        for flow_y in [false, true] {
            let target = all_dead(height, width);
            let mut reverser = GameOfLifeReverser::new(target.clone(), flow_y);
            let found = reverser.find_previous_state().unwrap();
            assert_eq!(stepped(&found), target);
            let first = reverser.find_first_previous_state().unwrap();
            assert_eq!(stepped(&first), target);
        }
    }
}

#[test]
fn first_predecessor_of_an_all_dead_target_is_all_dead() {
    for flow_y in [false, true] {
        let target = all_dead(3, 4);
        let found = GameOfLifeReverser::new(target.clone(), flow_y).find_first_previous_state();
        assert_eq!(found, Some(target));
    }
}

#[test]
fn round_trip_in_both_directions() {
    for target in [blinker(), block(), grid(vec![vec![1, 1], vec![1, 1]]), grid(vec![vec![0, 1, 0], vec![0, 0, 1]])] {
        for flow_y in [false, true] {
            let mut reverser = GameOfLifeReverser::new(target.clone(), flow_y);
            if let Some(found) = reverser.find_previous_state() {
                assert_eq!(stepped(&found), target);
                assert!(is_binary(&found));
            }
            if let Some(first) = reverser.find_first_previous_state() {
                assert_eq!(stepped(&first), target);
                assert!(is_binary(&first));
            }
        }
    }
}

#[test]
fn blinker_has_a_predecessor_that_is_not_itself() {
    let target = blinker();
    assert_ne!(stepped(&target), target);
    let found = GameOfLifeReverser::new(target.clone(), false).find_previous_state().unwrap();
    assert_ne!(found, target);
    assert_eq!(stepped(&found), target);
}

#[test]
fn parallel_and_sequential_search_agree_on_existence() {
    let targets = [
        blinker(),
        block(),
        grid(vec![vec![1]]),
        grid(vec![vec![1, 1]]),
        grid(vec![vec![1, 0, 1]]),
        grid(vec![vec![1, 1, 1], vec![1, 1, 1], vec![1, 1, 1]]),
        grid(vec![vec![1, 0], vec![0, 1]]),
    ];
    for target in targets {
        for flow_y in [false, true] {
            let mut reverser = GameOfLifeReverser::new(target.clone(), flow_y);
            let any = reverser.find_previous_state();
            let first = reverser.find_first_previous_state();
            assert_eq!(any.is_some(), first.is_some());
        }
    }
}

#[test]
fn sequential_search_is_deterministic() {
    for target in [blinker(), block(), all_dead(3, 3), grid(vec![vec![1, 1], vec![1, 1]])] {
        for flow_y in [false, true] {
            let one = GameOfLifeReverser::new(target.clone(), flow_y).find_first_previous_state();
            let two = GameOfLifeReverser::new(target.clone(), flow_y).find_first_previous_state();
            assert_eq!(one, two);
            let reverser = GameOfLifeReverser::new(target.clone(), flow_y);
            assert_eq!(reverser.find_first_previous_state(), one);
            assert_eq!(reverser.find_first_previous_state(), one);
        }
    }
}

#[test]
fn first_predecessor_of_the_blinker_row_by_row() {
    let found = GameOfLifeReverser::new(blinker(), false).find_first_previous_state().unwrap();
    assert_eq!(stepped(&found), blinker());
    assert_eq!(found.to_rows(), vec![vec![0, 1, 0], vec![0, 1, 0], vec![0, 1, 0]]);
}

#[test]
fn two_live_cells_in_a_row_have_no_predecessor() {
    let target = grid(vec![vec![1, 1]]);
    assert_eq!(GameOfLifeReverser::new(target.clone(), false).find_previous_state(), None);
    assert_eq!(GameOfLifeReverser::new(target, true).find_first_previous_state(), None);
}

#[test]
fn find_previous_state_can_be_called_again() {
    let target = block();
    let mut reverser = GameOfLifeReverser::new(target.clone(), true);
    let one = reverser.find_previous_state().unwrap();
    let two = reverser.find_previous_state().unwrap();
    assert_eq!(stepped(&one), target);
    assert_eq!(stepped(&two), target);
}

#[test]
fn is_valid_target_accepts_dead_and_live_cells() {
    assert!(GameOfLifeReverser::is_valid_target(&block()));
    assert!(GameOfLifeReverser::is_valid_target(&grid(vec![vec![1]])));
}

#[test]
fn is_valid_target_rejects_other_cells() {
    assert!(!GameOfLifeReverser::is_valid_target(&grid(vec![vec![0, -1]])));
    assert!(!GameOfLifeReverser::is_valid_target(&grid(vec![vec![0, 0], vec![2, 0]])));
}

#[test]
fn visualize_state_draws_one_line_per_row() {
    let text = GameOfLifeReverser::visualize_state(&grid(vec![vec![1, 0, 0], vec![0, 1, 1]]));
    assert_eq!(text, "#--\n-##\n");
}

#[test]
fn visualize_state_marks_unknown_and_other_cells() {
    let text = GameOfLifeReverser::visualize_state(&grid(vec![vec![-1, 1], vec![0, 7], vec![-2, -1]]));
    assert_eq!(text, "?#\n-x\nx?\n");
}

#[test]
fn is_predecessor_of_tests_one_step() {
    let vertical = grid(vec![vec![0, 1, 0], vec![0, 1, 0], vec![0, 1, 0]]);
    assert!(GameOfLifeReverser::is_predecessor_of(&vertical, &blinker()));
    assert!(GameOfLifeReverser::is_predecessor_of(&blinker(), &vertical));
    assert!(!GameOfLifeReverser::is_predecessor_of(&blinker(), &blinker()));
    assert!(GameOfLifeReverser::is_predecessor_of(&block(), &block()));
}

#[test]
fn is_predecessor_of_rejects_another_shape() {
    assert!(!GameOfLifeReverser::is_predecessor_of(&all_dead(2, 3), &all_dead(3, 2)));
    assert!(!GameOfLifeReverser::is_predecessor_of(&all_dead(2, 3), &all_dead(2, 2)));
    assert!(GameOfLifeReverser::is_predecessor_of(&all_dead(2, 3), &all_dead(2, 3)));
}

#[test]
fn is_predecessor_of_rejects_cells_that_are_not_dead_or_alive() {
    let candidate = grid(vec![vec![-1, 0], vec![0, 0]]);
    assert_eq!(stepped(&candidate), all_dead(2, 2));
    assert!(!GameOfLifeReverser::is_predecessor_of(&candidate, &all_dead(2, 2)));
}

#[test]
fn what_the_search_returns_passes_the_test() {
    for target in [blinker(), block(), all_dead(2, 4)] {
        let mut reverser = GameOfLifeReverser::new(target.clone(), true);
        let found = reverser.find_previous_state().unwrap();
        assert!(GameOfLifeReverser::is_predecessor_of(&found, &target));
    }
}
