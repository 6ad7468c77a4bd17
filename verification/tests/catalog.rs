use life_reverser::grid::Grid;
use life_reverser::patterns::{pattern_from_code, GameConfig};
use life_reverser::rule::next_state;

fn population(pattern: &Grid) -> i32 {
    pattern.to_rows().iter().flatten().map(|&cell| cell as i32).sum()
}

fn code(pattern: &Grid) -> u32 {
    let rows = pattern.to_rows();
    let mut code = 0;
    for y in 0..3 {
        for x in 0..3 {
            code += (rows[y][x] as u32) << (3 * y + x);
        }
    }
    code
}

fn outcome(pattern: &Grid) -> i8 {
    let center = pattern.get(1, 1).unwrap();
    next_state(center, population(pattern) - center as i32)
}

#[test]
fn pattern_from_code_reads_binary_digits() {
    assert_eq!(pattern_from_code(0).to_rows(), vec![vec![0, 0, 0], vec![0, 0, 0], vec![0, 0, 0]]);
    assert_eq!(pattern_from_code(1).to_rows(), vec![vec![1, 0, 0], vec![0, 0, 0], vec![0, 0, 0]]);
    assert_eq!(pattern_from_code(16).to_rows(), vec![vec![0, 0, 0], vec![0, 1, 0], vec![0, 0, 0]]);
    assert_eq!(pattern_from_code(0b100_010_110).to_rows(), vec![vec![0, 1, 1], vec![0, 1, 0], vec![0, 0, 1]]);
    assert_eq!(pattern_from_code(511).to_rows(), vec![vec![1, 1, 1], vec![1, 1, 1], vec![1, 1, 1]]);
}

#[test]
fn pattern_from_code_reads_the_nine_lowest_digits_only() {
    assert_eq!(pattern_from_code(512), pattern_from_code(0));
    assert_eq!(pattern_from_code(512 + 16), pattern_from_code(16));
    assert_eq!(pattern_from_code(u32::MAX), pattern_from_code(511));
}

#[test]
fn catalogs_have_140_and_372_patterns() {
    let config = GameConfig::new();
    assert_eq!(config.alive_patterns.len(), 140);
    assert_eq!(config.dead_patterns.len(), 372);
}

#[test]
fn catalogs_split_the_512_patterns() {
    let config = GameConfig::new();
    let mut seen = vec![0u32; 512];
    for pattern in config.alive_patterns.iter() {
        assert_eq!(outcome(pattern), 1);
        seen[code(pattern) as usize] += 1;
    }
    for pattern in config.dead_patterns.iter() {
        assert_eq!(outcome(pattern), 0);
        seen[code(pattern) as usize] += 1;
    }
    assert!(seen.iter().all(|&times| times == 1));
}

#[test]
fn catalog_patterns_are_three_by_three_and_binary() {
    let config = GameConfig::new();
    for pattern in config.alive_patterns.iter().chain(config.dead_patterns.iter()) {
        assert_eq!(pattern.nrows(), 3);
        assert_eq!(pattern.ncols(), 3);
        assert!(pattern.to_rows().iter().flatten().all(|&cell| cell == 0 || cell == 1));
    }
}

#[test]
fn catalogs_are_sorted_by_population_then_centre_then_code() {
    let config = GameConfig::new();
    for patterns in [&config.alive_patterns, &config.dead_patterns] {
        for pair in patterns.windows(2) {
            let key = |p: &Grid| (population(p), 1 - p.get(1, 1).unwrap(), code(p));
            assert!(key(&pair[0]) < key(&pair[1]));
        }
    }
}

#[test]
fn dead_catalog_starts_with_the_empty_pattern() {
    let config = GameConfig::new();
    assert_eq!(config.dead_patterns[0], pattern_from_code(0));
    assert_eq!(config.dead_patterns[1], pattern_from_code(16));
    assert_eq!(config.dead_patterns[2], pattern_from_code(1));
    assert_eq!(config.dead_patterns[371], pattern_from_code(511));
}

#[test]
fn alive_catalog_puts_a_live_centre_first() {
    let config = GameConfig::new();
    assert_eq!(config.alive_patterns[0], pattern_from_code(0b000_010_011));
    assert_eq!(config.alive_patterns[27], pattern_from_code(0b110_010_000));
    assert_eq!(config.alive_patterns[28], pattern_from_code(0b000_000_111));
    assert_eq!(config.alive_patterns[83], pattern_from_code(0b111_000_000));
    assert_eq!(config.alive_patterns[84], pattern_from_code(0b000_010_111));
    assert_eq!(config.alive_patterns[139], pattern_from_code(0b111_010_000));
}

#[test]
fn generate_patterns_takes_any_other_value_for_dead() {
    assert_eq!(GameConfig::generate_patterns(0), GameConfig::generate_patterns(-1));
    assert_eq!(GameConfig::generate_patterns(0), GameConfig::generate_patterns(7));
    assert_eq!(GameConfig::generate_patterns(1).len(), 140);
}

#[test]
fn generate_single_pattern_lists_a_group_by_code() {
    let group = GameConfig::generate_single_pattern(1, 0);
    assert_eq!(group, vec![pattern_from_code(16)]);
    let group = GameConfig::generate_single_pattern(0, 1);
    let codes: Vec<u32> = group.iter().map(code).collect();
    assert_eq!(codes, vec![1, 2, 4, 8, 32, 64, 128, 256]);
    assert_eq!(GameConfig::generate_single_pattern(1, 8), vec![pattern_from_code(511)]);
    assert_eq!(GameConfig::generate_single_pattern(0, 3).len(), 56);
    assert_eq!(GameConfig::generate_single_pattern(1, 4).len(), 70);
}

#[test]
fn generate_single_pattern_is_empty_for_impossible_groups() {
    assert!(GameConfig::generate_single_pattern(2, 1).is_empty());
    assert!(GameConfig::generate_single_pattern(-1, 1).is_empty());
    assert!(GameConfig::generate_single_pattern(1, 9).is_empty());
    assert!(GameConfig::generate_single_pattern(0, -1).is_empty());
}
