use life_reverser::driver::find_previous_state_with_noise;
use life_reverser::grid::Grid;
use life_reverser::life::GameOfLife;
use life_reverser::solver::GameOfLifeReverser;

fn grid(rows: Vec<Vec<i8>>) -> Grid {
    Grid::from_rows(&rows).unwrap()
}

fn stepped(grid: &Grid) -> Grid {
    let mut game = GameOfLife::new(grid.clone());
    game.step();
    game.state
}

fn differing_cells(a: &Grid, b: &Grid) -> usize {
    let (a, b) = (a.to_rows(), b.to_rows());
    a.iter().flatten().zip(b.iter().flatten()).filter(|(x, y)| x != y).count()
}

#[test]
fn flip_turns_a_cell_around() {
    let mut g = grid(vec![vec![0, 1], vec![-1, 5]]);
    assert!(g.flip(0, 0));
    assert!(g.flip(0, 1));
    assert!(g.flip(1, 0));
    assert!(g.flip(1, 1));
    assert_eq!(g.to_rows(), vec![vec![1, 0], vec![0, 0]]);
}

#[test]
fn flip_outside_the_grid_changes_nothing() {
    let mut g = grid(vec![vec![0, 1]]);
    assert!(!g.flip(1, 0));
    assert!(!g.flip(0, 2));
    assert_eq!(g.to_rows(), vec![vec![0, 1]]);
}

#[test]
fn noise_is_not_used_where_a_predecessor_exists() {
    let target = grid(vec![vec![0, 0, 0], vec![1, 1, 1], vec![0, 0, 0]]);
    let rewound = find_previous_state_with_noise(target.clone(), false, 10).unwrap();
    assert_eq!(rewound.flips, 0);
    assert_eq!(rewound.target, target);
    assert_eq!(stepped(&rewound.predecessor), target);
}

#[test]
fn noise_without_flips_gives_up_at_once() {
    let target = grid(vec![vec![1]]);
    assert!(find_previous_state_with_noise(target, false, 0).is_none());
}

#[test]
fn noise_turns_a_lone_live_cell_dead() {
    let target = grid(vec![vec![1]]);
    let rewound = find_previous_state_with_noise(target, true, 5).unwrap();
    assert_eq!(rewound.flips, 1);
    assert_eq!(rewound.target, grid(vec![vec![0]]));
    assert_eq!(stepped(&rewound.predecessor), rewound.target);
}

#[test]
fn noise_reaches_a_target_with_a_predecessor() {
    let target = grid(vec![vec![1, 1]]);
    let rewound = find_previous_state_with_noise(target.clone(), false, 1000).unwrap();
    assert!(rewound.flips >= 1);
    assert!(rewound.flips <= 1000);
    assert_eq!(rewound.target.nrows(), 1);
    assert_eq!(rewound.target.ncols(), 2);
    assert!(GameOfLifeReverser::is_valid_target(&rewound.target));
    assert!(differing_cells(&rewound.target, &target) <= rewound.flips);
    assert_eq!(stepped(&rewound.predecessor), rewound.target);
}

#[test]
fn patterns_per_cell_is_512() {
    let reverser = GameOfLifeReverser::new(grid(vec![vec![0, 1], vec![1, 0]]), false);
    assert_eq!(reverser.patterns_per_cell(), 512);
}

#[test]
fn search_space_size_is_a_power_of_512() {
    let one = GameOfLifeReverser::new(grid(vec![vec![0]]), false);
    assert_eq!(one.search_space_size(), Some("512".to_string()));
    let two = GameOfLifeReverser::new(grid(vec![vec![0, 1]]), false);
    assert_eq!(two.search_space_size(), Some("262144".to_string()));
    let six = GameOfLifeReverser::new(grid(vec![vec![0, 1, 0], vec![1, 0, 1]]), true);
    assert_eq!(six.search_space_size(), Some("18014398509481984".to_string()));
    let nine = GameOfLifeReverser::new(grid(vec![vec![0; 3]; 3]), true);
    assert_eq!(nine.search_space_size(), Some("2417851639229258349412352".to_string()));
}
