//! The catalog of 3×3 neighbourhoods: for each value that a cell may have in
//! the next generation, the neighbourhoods that produce it, in the order in
//! which the search tries them.

use vstd::prelude::*;
use crate::grid::{array_get, array_set, array_zeros, binary, has_shape, is_bit, Grid};
use crate::rule::{next_cell, next_state};
use vstd::seq_lib::seq_to_set_is_finite;
use vstd::set_lib::{lemma_int_range, lemma_set_disjoint_lens, set_int_range};

verus! {

/// The number of 3×3 grids of dead and live cells.
pub const PATTERN_COUNT: u32 = 512;

/// `2^k` for the nine positions of a pattern.
pub open spec fn two_to(k: int) -> int {
    if k <= 0 {
        1
    } else if k == 1 {
        2
    } else if k == 2 {
        4
    } else if k == 3 {
        8
    } else if k == 4 {
        16
    } else if k == 5 {
        32
    } else if k == 6 {
        64
    } else if k == 7 {
        128
    } else {
        256
    }
}

/// Binary digit `k` of `code`.
pub open spec fn code_bit(code: int, k: int) -> i8 {
    ((code / two_to(k)) % 2) as i8
}

/// The pattern with the given code: the cell in row `y`, column `x` is
/// binary digit `3 * y + x` of the code.
pub open spec fn pattern_rows(code: int) -> Seq<Seq<i8>> {
    Seq::new(3, |y: int| Seq::new(3, |x: int| code_bit(code, 3 * y + x)))
}

/// `m` is a pattern: three rows of three cells, each dead or alive.
pub open spec fn is_pattern(m: Seq<Seq<i8>>) -> bool {
    has_shape(m, 3, 3) && binary(m)
}

/// Cell `k` of a pattern, counted row by row from the upper left.
pub open spec fn part(m: Seq<Seq<i8>>, k: int) -> int {
    m[k / 3][k % 3] as int
}

/// The code of a pattern: its cells read as binary digits.
pub open spec fn pattern_code(m: Seq<Seq<i8>>) -> int {
    part(m, 0) + 2 * part(m, 1) + 4 * part(m, 2) + 8 * part(m, 3) + 16 * part(m, 4) + 32 * part(
        m,
        5,
    ) + 64 * part(m, 6) + 128 * part(m, 7) + 256 * part(m, 8)
}

/// The number of live cells of a pattern.
pub open spec fn population(m: Seq<Seq<i8>>) -> int {
    part(m, 0) + part(m, 1) + part(m, 2) + part(m, 3) + part(m, 4) + part(m, 5) + part(m, 6)
        + part(m, 7) + part(m, 8)
}

/// The number of live cells of a pattern around its centre.
pub open spec fn neighbor_sum(m: Seq<Seq<i8>>) -> int {
    population(m) - part(m, 4)
}

/// What the centre of a pattern becomes in the next generation.
pub open spec fn outcome(m: Seq<Seq<i8>>) -> i8 {
    next_cell(m[1][1], neighbor_sum(m))
}

/// The place of a pattern in the order of the search: fewer live cells
/// first; among equally many, a live centre first; then by code.
pub open spec fn search_key(m: Seq<Seq<i8>>) -> int {
    population(m) * 1024 + (1 - part(m, 4)) * 512 + pattern_code(m)
}

/// The pattern `m` produces the value `end_state`, where every value other
/// than 1 stands for a dead cell.
pub open spec fn produces(m: Seq<Seq<i8>>, end_state: i8) -> bool {
    (outcome(m) == 1) == (end_state == 1)
}

/// The list `patterns` holds the pattern `m`.
pub open spec fn lists(patterns: Seq<Grid>, m: Seq<Seq<i8>>) -> bool {
    exists|i: int| 0 <= i < patterns.len() && (#[trigger] patterns[i])@ == m
}

/// `patterns` holds exactly the patterns whose centre is `cell_state` and
/// whose centre has `num_neighbors` live neighbours, by ascending code.
pub open spec fn is_group(patterns: Seq<Grid>, cell_state: i8, num_neighbors: i8) -> bool {
    &&& forall|i: int|
        0 <= i < patterns.len() ==> {
            &&& is_pattern((#[trigger] patterns[i])@)
            &&& patterns[i].width() == 3
            &&& patterns[i]@[1][1] == cell_state
            &&& neighbor_sum(patterns[i]@) == num_neighbors
        }
    &&& forall|i: int, j: int|
        0 <= i < j < patterns.len() ==> pattern_code((#[trigger] patterns[i])@) < pattern_code(
            (#[trigger] patterns[j])@,
        )
    &&& forall|m: Seq<Seq<i8>>|
        #[trigger] is_pattern(m) && m[1][1] == cell_state && neighbor_sum(m) == num_neighbors
            ==> lists(patterns, m)
}

/// `patterns` is the catalog for `end_state`: it holds exactly the patterns
/// that produce `end_state`, each once, in the order of the search.
pub open spec fn is_catalog(patterns: Seq<Grid>, end_state: i8) -> bool {
    &&& forall|i: int|
        0 <= i < patterns.len() ==> {
            &&& is_pattern((#[trigger] patterns[i])@)
            &&& patterns[i].width() == 3
            &&& produces(patterns[i]@, end_state)
        }
    &&& forall|i: int, j: int|
        0 <= i < j < patterns.len() ==> search_key((#[trigger] patterns[i])@) < search_key(
            (#[trigger] patterns[j])@,
        )
    &&& forall|m: Seq<Seq<i8>>|
        #[trigger] is_pattern(m) && produces(m, end_state) ==> lists(patterns, m)
}

/// The nine cells of a pattern are dead or alive.
pub proof fn lemma_pattern_parts(m: Seq<Seq<i8>>)
    requires
        is_pattern(m),
    ensures
        forall|k: int| 0 <= k < 9 ==> 0 <= #[trigger] part(m, k) <= 1,
        0 <= population(m) <= 9,
        0 <= pattern_code(m) < 512,
        0 <= neighbor_sum(m) <= 8,
{
    assert forall|k: int| 0 <= k < 9 implies 0 <= #[trigger] part(m, k) <= 1 by {
        assert(is_bit(m[k / 3][k % 3]));
    }
    assert(0 <= part(m, 0) <= 1 && 0 <= part(m, 1) <= 1 && 0 <= part(m, 2) <= 1);
    assert(0 <= part(m, 3) <= 1 && 0 <= part(m, 4) <= 1 && 0 <= part(m, 5) <= 1);
    assert(0 <= part(m, 6) <= 1 && 0 <= part(m, 7) <= 1 && 0 <= part(m, 8) <= 1);
}

/// Every code below 512 is the code of its own pattern.
pub proof fn lemma_code_of_pattern_rows(code: int)
    requires
        0 <= code < 512,
    ensures
        is_pattern(pattern_rows(code)),
        pattern_code(pattern_rows(code)) == code,
{
    let m = pattern_rows(code);
    let c = code as u32;
    assert((c / 1) % 2 + 2 * ((c / 2) % 2) + 4 * ((c / 4) % 2) + 8 * ((c / 8) % 2) + 16 * ((c / 16)
        % 2) + 32 * ((c / 32) % 2) + 64 * ((c / 64) % 2) + 128 * ((c / 128) % 2) + 256 * ((c / 256)
        % 2) == c) by (bit_vector)
        requires
            c < 512,
    ;
    assert forall|y: int, x: int| 0 <= y < 3 && 0 <= x < 3 implies is_bit(#[trigger] m[y][x]) by {
        assert(m[y][x] == code_bit(code, 3 * y + x));
    }
    assert(part(m, 0) == (code / 1) % 2);
    assert(part(m, 1) == (code / 2) % 2);
    assert(part(m, 2) == (code / 4) % 2);
    assert(part(m, 3) == (code / 8) % 2);
    assert(part(m, 4) == (code / 16) % 2);
    assert(part(m, 5) == (code / 32) % 2);
    assert(part(m, 6) == (code / 64) % 2);
    assert(part(m, 7) == (code / 128) % 2);
    assert(part(m, 8) == (code / 256) % 2);
}

/// Binary digit `k` of the sum of nine weighted digits is digit `k`.
proof fn lemma_digit_of_sum(b: Seq<u32>, k: int)
    requires
        b.len() == 9,
        forall|j: int| 0 <= j < 9 ==> #[trigger] b[j] <= 1,
        0 <= k < 9,
    ensures
        ((b[0] + 2 * b[1] + 4 * b[2] + 8 * b[3] + 16 * b[4] + 32 * b[5] + 64 * b[6] + 128 * b[7]
            + 256 * b[8]) / two_to(k)) % 2 == b[k],
{
    let (b0, b1, b2, b3, b4) = (b[0], b[1], b[2], b[3], b[4]);
    let (b5, b6, b7, b8) = (b[5], b[6], b[7], b[8]);
    let s: u32 = (b0 + 2 * b1 + 4 * b2 + 8 * b3 + 16 * b4 + 32 * b5 + 64 * b6 + 128 * b7 + 256
        * b8) as u32;
    assert((s / 1) % 2 == b0 && (s / 2) % 2 == b1 && (s / 4) % 2 == b2 && (s / 8) % 2 == b3 && (s
        / 16) % 2 == b4 && (s / 32) % 2 == b5 && (s / 64) % 2 == b6 && (s / 128) % 2 == b7 && (s
        / 256) % 2 == b8) by (bit_vector)
        requires
            b0 <= 1 && b1 <= 1 && b2 <= 1 && b3 <= 1 && b4 <= 1 && b5 <= 1 && b6 <= 1 && b7 <= 1
                && b8 <= 1,
            s == b0 + 2 * b1 + 4 * b2 + 8 * b3 + 16 * b4 + 32 * b5 + 64 * b6 + 128 * b7 + 256
                * b8,
    ;
}

/// Every pattern is the pattern of its own code.
pub proof fn lemma_pattern_rows_of_code(m: Seq<Seq<i8>>)
    requires
        is_pattern(m),
    ensures
        0 <= pattern_code(m) < 512,
        pattern_rows(pattern_code(m)) == m,
{
    lemma_pattern_parts(m);
    let code = pattern_code(m);
    let b = Seq::new(9, |k: int| part(m, k) as u32);
    assert forall|y: int, x: int| 0 <= y < 3 && 0 <= x < 3 implies pattern_rows(code)[y][x]
        == #[trigger] m[y][x] by {
        let k = 3 * y + x;
        assert(k / 3 == y && k % 3 == x);
        lemma_digit_of_sum(b, k);
        assert(part(m, k) == b[k]);
    }
    assert(pattern_rows(code) =~~= m);
}

/// Two patterns with the same code are the same pattern.
pub proof fn lemma_same_code_same_pattern(a: Seq<Seq<i8>>, b: Seq<Seq<i8>>)
    requires
        is_pattern(a),
        is_pattern(b),
        pattern_code(a) == pattern_code(b),
    ensures
        a == b,
{
    lemma_pattern_rows_of_code(a);
    lemma_pattern_rows_of_code(b);
}

/// The sum of the first `k` cells of a pattern.
pub open spec fn population_upto(m: Seq<Seq<i8>>, k: int) -> int
    decreases k,
{
    if k <= 0 {
        0
    } else {
        population_upto(m, k - 1) + part(m, k - 1)
    }
}

/// An extract of `code` by shifting and masking is its binary digit.
proof fn lemma_shift_digit(code: u32, k: u32)
    requires
        k < 9,
    ensures
        (code >> k) & 1 == (code as int / two_to(k as int)) % 2,
        (code >> k) & 1 <= 1,
{
    assert(k < 9 ==> (code >> k) & 1 == (code / (1u32 << k)) % 2) by (bit_vector);
    assert(1u32 << 0 == 1 && 1u32 << 1 == 2 && 1u32 << 2 == 4 && 1u32 << 3 == 8 && 1u32 << 4 == 16
        && 1u32 << 5 == 32 && 1u32 << 6 == 64 && 1u32 << 7 == 128 && 1u32 << 8 == 256)
        by (bit_vector);
}

/// The 3×3 grid whose cells are the nine lowest binary digits of `code`.
pub fn pattern_from_code(code: u32) -> (matrix: Grid)
    ensures
        matrix@ == pattern_rows(code as int),
        matrix.width() == 3,
{
    let mut matrix = array_zeros(3, 3);
    let mut bit: u32 = 0;
    while bit < 9
        invariant
            bit <= 9,
            has_shape(matrix@, 3, 3),
            matrix.width() == 3,
            forall|y: int, x: int|
                0 <= y < 3 && 0 <= x < 3 && 3 * y + x < bit ==> #[trigger] matrix@[y][x]
                    == code_bit(code as int, 3 * y + x),
        decreases 9 - bit,
    {
        let y = (bit / 3) as usize;
        let x = (bit % 3) as usize;
        proof {
            lemma_shift_digit(code, bit);
        }
        let ghost before = matrix@;
        array_set(&mut matrix, y, x, ((code >> bit) & 1) as i8);
        assert forall|r: int| 0 <= r < 3 implies (#[trigger] matrix@[r]).len() == 3 by {
            assert(before[r].len() == 3);
        }
        bit += 1;
    }
    assert(matrix@ =~~= pattern_rows(code as int));
    matrix
}

/// The number of live cells of a pattern.
fn count_ones(matrix: &Grid) -> (count: i8)
    requires
        is_pattern(matrix@),
    ensures
        count == population(matrix@),
{
    let mut count: i8 = 0;
    let mut k: usize = 0;
    proof {
        lemma_pattern_parts(matrix@);
    }
    while k < 9
        invariant
            k <= 9,
            is_pattern(matrix@),
            forall|j: int| 0 <= j < 9 ==> 0 <= #[trigger] part(matrix@, j) <= 1,
            0 <= count <= k,
            count == population_upto(matrix@, k as int),
        decreases 9 - k,
    {
        assert(0 <= part(matrix@, k as int) <= 1);
        count += array_get(matrix, k / 3, k % 3);
        k += 1;
    }
    proof {
        reveal_with_fuel(population_upto, 10);
    }
    count
}

/// `patterns` holds exactly the patterns that produce `end_state` and whose
/// place in the order of the search is below `bound`, each once and in that
/// order.
pub open spec fn is_catalog_below(patterns: Seq<Grid>, end_state: i8, bound: int) -> bool {
    &&& forall|i: int|
        0 <= i < patterns.len() ==> {
            &&& is_pattern((#[trigger] patterns[i])@)
            &&& patterns[i].width() == 3
            &&& produces(patterns[i]@, end_state)
            &&& search_key(patterns[i]@) < bound
        }
    &&& forall|i: int, j: int|
        0 <= i < j < patterns.len() ==> search_key((#[trigger] patterns[i])@) < search_key(
            (#[trigger] patterns[j])@,
        )
    &&& forall|m: Seq<Seq<i8>>|
        #[trigger] is_pattern(m) && produces(m, end_state) && search_key(m) < bound ==> lists(
            patterns,
            m,
        )
}

/// A pattern whose place lies in the 512 places from `population * 1024 +
/// stage * 512` on has that population and the centre `1 - stage`.
proof fn lemma_key_range(m: Seq<Seq<i8>>, population: int, stage: int)
    requires
        is_pattern(m),
        0 <= stage <= 1,
        population * 1024 + stage * 512 <= search_key(m) < population * 1024 + stage * 512 + 512,
    ensures
        self::population(m) == population,
        part(m, 4) == 1 - stage,
        m[1][1] == 1 - stage,
        neighbor_sum(m) == population - (1 - stage),
{
    lemma_pattern_parts(m);
    assert(0 <= part(m, 4) <= 1);
}

/// Adding the next group of patterns extends the catalog by 512 places.
proof fn lemma_append_group(
    patterns: Seq<Grid>,
    group: Seq<Grid>,
    end_state: i8,
    population: int,
    stage: int,
)
    requires
        0 <= stage <= 1,
        0 <= population - (1 - stage) <= 8,
        is_catalog_below(patterns, end_state, population * 1024 + stage * 512),
        is_group(group, (1 - stage) as i8, (population - (1 - stage)) as i8),
        (next_cell((1 - stage) as i8, population - (1 - stage)) == 1) == (end_state == 1),
    ensures
        is_catalog_below(patterns + group, end_state, population * 1024 + stage * 512 + 512),
{
    let all = patterns + group;
    let bound = population * 1024 + stage * 512;
    assert forall|i: int| 0 <= i < all.len() implies {
        &&& is_pattern((#[trigger] all[i])@)
        &&& all[i].width() == 3
        &&& produces(all[i]@, end_state)
        &&& search_key(all[i]@) < bound + 512
        &&& (i >= patterns.len() ==> search_key(all[i]@) == bound + pattern_code(all[i]@))
    } by {
        if i < patterns.len() {
            assert(all[i] == patterns[i]);
        } else {
            assert(all[i] == group[i - patterns.len()]);
            lemma_pattern_parts(all[i]@);
            assert(part(all[i]@, 4) == 1 - stage);
        }
    }
    assert forall|i: int, j: int| 0 <= i < j < all.len() implies search_key((#[trigger] all[i])@)
        < search_key((#[trigger] all[j])@) by {
        if j < patterns.len() {
            assert(all[i] == patterns[i] && all[j] == patterns[j]);
        } else if i < patterns.len() {
            assert(all[i] == patterns[i]);
        } else {
            assert(all[i] == group[i - patterns.len()]);
            assert(all[j] == group[j - patterns.len()]);
        }
    }
    assert forall|m: Seq<Seq<i8>>| #[trigger]
        is_pattern(m) && produces(m, end_state) && search_key(m) < bound + 512 implies lists(
        all,
        m,
    ) by {
        if search_key(m) < bound {
            assert(lists(patterns, m));
            let i = choose|i: int| 0 <= i < patterns.len() && (#[trigger] patterns[i])@ == m;
            assert(all[i] == patterns[i]);
        } else {
            lemma_key_range(m, population, stage);
            assert(lists(group, m));
            let i = choose|i: int| 0 <= i < group.len() && (#[trigger] group[i])@ == m;
            assert(all[patterns.len() + i] == group[i]);
        }
    }
}

/// Where the next group holds no pattern that produces `end_state`, the
/// catalog reaches 512 places further as it is.
proof fn lemma_skip_group(patterns: Seq<Grid>, end_state: i8, population: int, stage: int)
    requires
        0 <= stage <= 1,
        is_catalog_below(patterns, end_state, population * 1024 + stage * 512),
        !(0 <= population - (1 - stage) <= 8) || (next_cell(
            (1 - stage) as i8,
            population - (1 - stage),
        ) == 1) != (end_state == 1),
    ensures
        is_catalog_below(patterns, end_state, population * 1024 + stage * 512 + 512),
{
    let bound = population * 1024 + stage * 512;
    assert forall|m: Seq<Seq<i8>>| #[trigger]
        is_pattern(m) && produces(m, end_state) && search_key(m) < bound + 512 implies lists(
        patterns,
        m,
    ) by {
        if search_key(m) >= bound {
            lemma_key_range(m, population, stage);
            lemma_pattern_parts(m);
        }
    }
}

/// `patterns` holds exactly the patterns with a code below `bound` whose
/// centre is `cell_state` and whose centre has `num_neighbors` live
/// neighbours, by ascending code.
pub open spec fn is_group_below(
    patterns: Seq<Grid>,
    cell_state: i8,
    num_neighbors: i8,
    bound: int,
) -> bool {
    &&& forall|i: int|
        0 <= i < patterns.len() ==> {
            &&& is_pattern((#[trigger] patterns[i])@)
            &&& patterns[i].width() == 3
            &&& patterns[i]@[1][1] == cell_state
            &&& neighbor_sum(patterns[i]@) == num_neighbors
            &&& pattern_code(patterns[i]@) < bound
        }
    &&& forall|i: int, j: int|
        0 <= i < j < patterns.len() ==> pattern_code((#[trigger] patterns[i])@) < pattern_code(
            (#[trigger] patterns[j])@,
        )
    &&& forall|m: Seq<Seq<i8>>|
        #[trigger] is_pattern(m) && m[1][1] == cell_state && neighbor_sum(m) == num_neighbors
            && pattern_code(m) < bound ==> lists(patterns, m)
}

/// The pattern of the next code joins its group.
proof fn lemma_group_push(
    patterns: Seq<Grid>,
    matrix: Grid,
    cell_state: i8,
    num_neighbors: i8,
    code: int,
)
    requires
        0 <= code < 512,
        is_group_below(patterns, cell_state, num_neighbors, code),
        matrix@ == pattern_rows(code),
        matrix.width() == 3,
        matrix@[1][1] == cell_state,
        neighbor_sum(matrix@) == num_neighbors,
    ensures
        is_group_below(patterns.push(matrix), cell_state, num_neighbors, code + 1),
{
    let all = patterns.push(matrix);
    lemma_code_of_pattern_rows(code);
    assert forall|i: int| 0 <= i < all.len() implies {
        &&& is_pattern((#[trigger] all[i])@)
        &&& all[i].width() == 3
        &&& all[i]@[1][1] == cell_state
        &&& neighbor_sum(all[i]@) == num_neighbors
        &&& pattern_code(all[i]@) < code + 1
    } by {
        if i < patterns.len() {
            assert(all[i] == patterns[i]);
        }
    }
    assert forall|i: int, j: int| 0 <= i < j < all.len() implies pattern_code(
        (#[trigger] all[i])@,
    ) < pattern_code((#[trigger] all[j])@) by {
        assert(all[i] == patterns[i]);
        if j < patterns.len() {
            assert(all[j] == patterns[j]);
        }
    }
    assert forall|m: Seq<Seq<i8>>| #[trigger]
        is_pattern(m) && m[1][1] == cell_state && neighbor_sum(m) == num_neighbors && pattern_code(
            m,
        ) < code + 1 implies lists(all, m) by {
        if pattern_code(m) < code {
            assert(lists(patterns, m));
            let i = choose|i: int| 0 <= i < patterns.len() && (#[trigger] patterns[i])@ == m;
            assert(all[i] == patterns[i]);
        } else {
            lemma_pattern_rows_of_code(m);
            assert(all[patterns.len() as int]@ == m);
        }
    }
}

/// The pattern of the next code does not belong to the group.
proof fn lemma_group_skip(patterns: Seq<Grid>, cell_state: i8, num_neighbors: i8, code: int)
    requires
        0 <= code < 512,
        is_group_below(patterns, cell_state, num_neighbors, code),
        !(pattern_rows(code)[1][1] == cell_state && neighbor_sum(pattern_rows(code))
            == num_neighbors),
    ensures
        is_group_below(patterns, cell_state, num_neighbors, code + 1),
{
    assert forall|m: Seq<Seq<i8>>| #[trigger]
        is_pattern(m) && m[1][1] == cell_state && neighbor_sum(m) == num_neighbors && pattern_code(
            m,
        ) < code + 1 implies lists(patterns, m) by {
        if pattern_code(m) >= code {
            lemma_pattern_rows_of_code(m);
        }
    }
}

/// The two catalogs of a search.
pub struct GameConfig {
    /// The patterns whose centre is alive in the next generation.
    pub alive_patterns: Vec<Grid>,
    /// The patterns whose centre is dead in the next generation.
    pub dead_patterns: Vec<Grid>,
}

impl GameConfig {
    /// Both lists are the catalogs of their value.
    pub open spec fn wf(&self) -> bool {
        is_catalog(self.alive_patterns@, 1) && is_catalog(self.dead_patterns@, 0)
    }

    /// The catalogs for a live and for a dead cell.
    pub fn new() -> (config: GameConfig)
        ensures
            config.wf(),
    {
        let alive_patterns = Self::generate_patterns(1);
        let dead_patterns = Self::generate_patterns(0);
        GameConfig { alive_patterns, dead_patterns }
    }

    /// The catalog for `end_state`: every pattern that produces a live
    /// centre where `end_state` is 1, and every other pattern where it is
    /// not, sparsest first.
    pub fn generate_patterns(end_state: i8) -> (patterns: Vec<Grid>)
        ensures
            is_catalog(patterns@, end_state),
    {
        let mut patterns: Vec<Grid> = Vec::new();
        let mut population: i8 = 0;
        while population <= 9
            invariant
                0 <= population <= 10,
                is_catalog_below(patterns@, end_state, population * 1024),
            decreases 10 - population,
        {
            let mut stage: i8 = 0;
            while stage < 2
                invariant
                    0 <= stage <= 2,
                    0 <= population <= 9,
                    is_catalog_below(patterns@, end_state, population * 1024 + stage * 512),
                decreases 2 - stage,
            {
                let cell_state: i8 = 1 - stage;
                let neighbors: i8 = population - cell_state;
                if 0 <= neighbors && neighbors <= 8 && (next_state(cell_state, neighbors as i32)
                    == 1) == (end_state == 1) {
                    let mut group = Self::generate_single_pattern(cell_state, neighbors);
                    proof {
                        lemma_append_group(
                            patterns@,
                            group@,
                            end_state,
                            population as int,
                            stage as int,
                        );
                    }
                    patterns.append(&mut group);
                } else {
                    proof {
                        lemma_skip_group(patterns@, end_state, population as int, stage as int);
                    }
                }
                stage += 1;
            }
            population += 1;
        }
        proof {
            assert forall|m: Seq<Seq<i8>>| #[trigger]
                is_pattern(m) && produces(m, end_state) implies lists(patterns@, m) by {
                lemma_pattern_parts(m);
            }
        }
        patterns
    }

    /// Every pattern whose centre is `cell_state` and whose centre has
    /// `num_neighbors` live neighbours, by ascending code.
    pub fn generate_single_pattern(cell_state: i8, num_neighbors: i8) -> (patterns: Vec<Grid>)
        ensures
            is_group(patterns@, cell_state, num_neighbors),
    {
        let mut patterns: Vec<Grid> = Vec::new();
        let mut code: u32 = 0;
        while code < PATTERN_COUNT
            invariant
                code <= 512,
                is_group_below(patterns@, cell_state, num_neighbors, code as int),
            decreases 512 - code,
        {
            let matrix = pattern_from_code(code);
            proof {
                lemma_code_of_pattern_rows(code as int);
            }
            let center_correct = array_get(&matrix, 1, 1) == cell_state;
            let neighbor_sum = count_ones(&matrix) - array_get(&matrix, 1, 1);
            if center_correct && neighbor_sum == num_neighbors {
                proof {
                    lemma_group_push(patterns@, matrix, cell_state, num_neighbors, code as int);
                }
                patterns.push(matrix);
            } else {
                proof {
                    lemma_group_skip(patterns@, cell_state, num_neighbors, code as int);
                }
            }
            code += 1;
        }
        proof {
            assert forall|m: Seq<Seq<i8>>| #[trigger]
                is_pattern(m) && m[1][1] == cell_state && self::neighbor_sum(m)
                    == num_neighbors implies lists(patterns@, m) by {
                lemma_pattern_parts(m);
            }
        }
        patterns
    }
}

/// The two catalogs split the patterns between them: every pattern stands in
/// exactly one of them, there exactly once, and the rule alone decides in
/// which, by the centre of the pattern and the number of live cells around
/// it.
pub proof fn lemma_catalog_partition(config: GameConfig, m: Seq<Seq<i8>>)
    requires
        config.wf(),
        is_pattern(m),
    ensures
        lists(config.alive_patterns@, m) <==> next_cell(m[1][1], neighbor_sum(m)) == 1,
        lists(config.dead_patterns@, m) <==> next_cell(m[1][1], neighbor_sum(m)) == 0,
        lists(config.alive_patterns@, m) != lists(config.dead_patterns@, m),
        forall|i: int, j: int|
            0 <= i < config.alive_patterns.len() && 0 <= j < config.alive_patterns.len()
                && config.alive_patterns[i]@ == m && config.alive_patterns[j]@ == m ==> i == j,
        forall|i: int, j: int|
            0 <= i < config.dead_patterns.len() && 0 <= j < config.dead_patterns.len()
                && config.dead_patterns[i]@ == m && config.dead_patterns[j]@ == m ==> i == j,
{
    let alive = config.alive_patterns@;
    let dead = config.dead_patterns@;
    if lists(alive, m) {
        let i = choose|i: int| 0 <= i < alive.len() && (#[trigger] alive[i])@ == m;
        assert(produces(alive[i]@, 1));
    }
    if lists(dead, m) {
        let i = choose|i: int| 0 <= i < dead.len() && (#[trigger] dead[i])@ == m;
        assert(produces(dead[i]@, 0));
    }
    assert forall|i: int, j: int|
        0 <= i < alive.len() && 0 <= j < alive.len() && alive[i]@ == m && alive[j]@
            == m implies i == j by {
        if i < j {
            assert(search_key(alive[i]@) < search_key(alive[j]@));
        } else if j < i {
            assert(search_key(alive[j]@) < search_key(alive[i]@));
        }
    }
    assert forall|i: int, j: int|
        0 <= i < dead.len() && 0 <= j < dead.len() && dead[i]@ == m && dead[j]@ == m implies i
        == j by {
        if i < j {
            assert(search_key(dead[i]@) < search_key(dead[j]@));
        } else if j < i {
            assert(search_key(dead[j]@) < search_key(dead[i]@));
        }
    }
}

/// The codes of the patterns of a list, in its order.
pub open spec fn codes(patterns: Seq<Grid>) -> Seq<int> {
    Seq::new(patterns.len(), |i: int| pattern_code(patterns[i]@))
}

/// No code stands twice in a catalog.
proof fn lemma_codes_differ(patterns: Seq<Grid>, end_state: i8)
    requires
        is_catalog(patterns, end_state),
    ensures
        codes(patterns).no_duplicates(),
{
    let c = codes(patterns);
    assert forall|i: int, j: int| 0 <= i < c.len() && 0 <= j < c.len() && i != j implies c[i]
        != c[j] by {
        if c[i] == c[j] {
            lemma_same_code_same_pattern(patterns[i]@, patterns[j]@);
            if i < j {
                assert(search_key(patterns[i]@) < search_key(patterns[j]@));
            } else {
                assert(search_key(patterns[j]@) < search_key(patterns[i]@));
            }
        }
    }
}

/// A catalog holds the code of every pattern that produces its value.
proof fn lemma_code_listed(patterns: Seq<Grid>, end_state: i8, c: int)
    requires
        is_catalog(patterns, end_state),
        0 <= c < 512,
        produces(pattern_rows(c), end_state),
    ensures
        codes(patterns).contains(c),
{
    let m = pattern_rows(c);
    lemma_code_of_pattern_rows(c);
    assert(lists(patterns, m));
    let i = choose|i: int| 0 <= i < patterns.len() && (#[trigger] patterns[i])@ == m;
    assert(codes(patterns)[i] == c);
}

/// A code that a catalog holds is the code of a pattern that produces its
/// value.
proof fn lemma_listed_code(patterns: Seq<Grid>, end_state: i8, c: int)
    requires
        is_catalog(patterns, end_state),
        codes(patterns).contains(c),
    ensures
        0 <= c < 512,
        produces(pattern_rows(c), end_state),
{
    let i = choose|i: int| 0 <= i < codes(patterns).len() && codes(patterns)[i] == c;
    lemma_pattern_rows_of_code(patterns[i]@);
    assert(produces(patterns[i]@, end_state));
}

/// The two catalogs hold 512 patterns between them.
pub proof fn lemma_catalogs_hold_all(config: GameConfig)
    requires
        config.wf(),
    ensures
        config.alive_patterns.len() + config.dead_patterns.len() == 512,
{
    let alive = config.alive_patterns@;
    let dead = config.dead_patterns@;
    let a = codes(alive);
    let d = codes(dead);
    lemma_codes_differ(alive, 1);
    lemma_codes_differ(dead, 0);
    a.unique_seq_to_set();
    d.unique_seq_to_set();
    seq_to_set_is_finite(a);
    seq_to_set_is_finite(d);
    let sa = a.to_set();
    let sd = d.to_set();
    assert forall|c: int| !(sa.contains(c) && sd.contains(c)) by {
        if sa.contains(c) && sd.contains(c) {
            lemma_listed_code(alive, 1, c);
            lemma_listed_code(dead, 0, c);
        }
    }
    assert(sa.disjoint(sd));
    assert forall|c: int| (sa + sd).contains(c) <==> set_int_range(0, 512).contains(c) by {
        if sa.contains(c) {
            lemma_listed_code(alive, 1, c);
        }
        if sd.contains(c) {
            lemma_listed_code(dead, 0, c);
        }
        if 0 <= c < 512 {
            if produces(pattern_rows(c), 1) {
                lemma_code_listed(alive, 1, c);
            } else {
                lemma_code_listed(dead, 0, c);
            }
        }
    }
    assert(sa + sd =~= set_int_range(0, 512));
    lemma_int_range(0, 512);
    lemma_set_disjoint_lens(sa, sd);
}

} // verus!
