//! The reverse search: a predecessor of a target grid, found by laying
//! catalog patterns over the grid position by position and stepping back
//! where none fits.

use vstd::arithmetic::power::pow;
use vstd::prelude::*;
use vstd::string::StringExecFns;
use rayon::iter::{IntoParallelRefIterator, ParallelIterator};
use crate::grid::{
    array_fill, array_get, array_ncols, array_nrows, array_set, has_shape, in_grid, is_bit,
    rectangular, uniform_rows, Grid, ALIVE, UNKNOWN,
};
use crate::life::GameOfLife;
use crate::patterns::{
    is_catalog, is_pattern, lemma_catalogs_hold_all, lemma_same_code_same_pattern, lists,
    pattern_code, produces, search_key, GameConfig,
};
use crate::search::{
    before, completes, fits, fits_at, has_predecessor, in_window, is_first_predecessor,
    is_predecessor, lemma_all_settled, lemma_extends_keeps_window, lemma_merged,
    lemma_next_position, lemma_search_le_reflexive, lemma_solution_fits, lemma_solution_of_merged,
    lemma_window_of_binary, merged, neighborhood, next_position, search_le, searching, settled,
    solution, valid_target,
};
use crate::rule::step_rows;
use crate::space::{decimal, power_decimal};
use crate::text::{rendered, rendered_upto, symbol, symbols};

verus! {

/// Column `c` of the pattern `m` holds a live cell.
pub open spec fn column_alive(m: Seq<Seq<i8>>, c: int) -> bool {
    m[0][c] != 0 || m[1][c] != 0 || m[2][c] != 0
}

/// Row `r` of the pattern `m` holds a live cell.
pub open spec fn row_alive(m: Seq<Seq<i8>>, r: int) -> bool {
    m[r][0] != 0 || m[r][1] != 0 || m[r][2] != 0
}

/// The pattern `m` is alive on a side on which the position `(y, x)` lies
/// outside a grid of `height` rows and `width` columns.
pub open spec fn boundary_conflict(
    m: Seq<Seq<i8>>,
    y: int,
    x: int,
    height: int,
    width: int,
) -> bool {
    ||| x < 0 && column_alive(m, 0)
    ||| x >= width && column_alive(m, 2)
    ||| y < 0 && row_alive(m, 0)
    ||| y >= height && row_alive(m, 2)
}

/// What the search may return for one pattern tried at `(y, x)`: a
/// predecessor that agrees with the state and has the pattern as its window
/// there, the first of these that a sequential scan meets; or nothing, where
/// there is none.
pub open spec fn candidate_outcome(
    target: Seq<Seq<i8>>,
    flow_y: bool,
    state: Seq<Seq<i8>>,
    y: int,
    x: int,
    m: Seq<Seq<i8>>,
    found: Option<Seq<Seq<i8>>>,
) -> bool {
    match found {
        Some(p) => {
            &&& solution(p, target, state)
            &&& neighborhood(p, y, x) == m
            &&& forall|q: Seq<Seq<i8>>| #[trigger]
                solution(q, target, state) && neighborhood(q, y, x) == m ==> search_le(
                    p,
                    q,
                    flow_y,
                    y,
                    x,
                )
        },
        None => forall|q: Seq<Seq<i8>>| #[trigger]
            solution(q, target, state) ==> neighborhood(q, y, x) != m,
    }
}

/// The cells of a grid that may be absent.
pub open spec fn found_rows(found: Option<Grid>) -> Option<Seq<Seq<i8>>> {
    match found {
        Some(g) => Some(g@),
        None => None,
    }
}

/// The reverse search for one target grid.
pub struct GameOfLifeReverser {
    target_state: Grid,
    height: usize,
    width: usize,
    config: GameConfig,
    solve_flow_y: bool,
}

impl GameOfLifeReverser {
    /// The target is valid, its size is the recorded one, and the catalogs
    /// are those of a live and of a dead cell.
    #[verifier::type_invariant]
    spec fn inv(&self) -> bool {
        &&& valid_target(self.target_state@)
        &&& has_shape(self.target_state@, self.height as nat, self.width as nat)
        &&& self.target_state.width() == self.width
        &&& self.config.wf()
    }

    /// The target of the search.
    pub closed spec fn target(&self) -> Seq<Seq<i8>> {
        self.target_state@
    }

    /// Whether the scan runs column by column (else row by row).
    pub closed spec fn flow_y(&self) -> bool {
        self.solve_flow_y
    }

    /// The two catalogs of the search.
    pub closed spec fn catalogs(&self) -> GameConfig {
        self.config
    }

    /// The number of candidate patterns for a cell, dead or alive: all 512
    /// patterns.
    pub fn patterns_per_cell(&self) -> (count: usize)
        ensures
            count == 512,
            count == self.catalogs().alive_patterns.len() + self.catalogs().dead_patterns.len(),
    {
        proof {
            use_type_invariant(self);
            lemma_catalogs_hold_all(self.config);
        }
        self.config.alive_patterns.len() + self.config.dead_patterns.len()
    }

    /// The number of ways to lay one candidate pattern on every cell of the
    /// target, in decimal digits: the candidates per cell to the power of
    /// the number of cells. `None` where the number of cells is beyond
    /// `usize`.
    pub fn search_space_size(&self) -> (size: Option<String>)
        ensures
            match size {
                Some(digits) => {
                    &&& self.target().len() * self.target()[0].len() <= usize::MAX
                    &&& digits@ == decimal(
                        pow(512, (self.target().len() * self.target()[0].len()) as nat) as nat,
                    )
                },
                None => self.target().len() * self.target()[0].len() > usize::MAX,
            },
    {
        proof {
            use_type_invariant(self);
        }
        let per_cell = self.patterns_per_cell();
        match self.height.checked_mul(self.width) {
            Some(cells) => Some(power_decimal(per_cell, cells)),
            None => None,
        }
    }

    /// The text of a grid for a reader: one line per row, `#` for a live
    /// cell, `-` for a dead one, `?` for an unknown one.
    pub fn visualize_state(state: &Grid) -> (text: String)
        ensures
            text@ == rendered(state@),
    {
        let height = array_nrows(state);
        let width = array_ncols(state);
        let mut text = String::new();
        let mut y: usize = 0;
        proof {
            reveal_strlit("#");
            reveal_strlit("-");
            reveal_strlit("?");
            reveal_strlit("x");
            reveal_strlit("\n");
        }
        while y < height
            invariant
                y <= height,
                has_shape(state@, height as nat, width as nat),
                text@ == rendered_upto(state@, y as int),
                "#"@ == seq!['#'],
                "-"@ == seq!['-'],
                "?"@ == seq!['?'],
                "x"@ == seq!['x'],
                "\n"@ == seq!['\n'],
            decreases height - y,
        {
            let mut x: usize = 0;
            while x < width
                invariant
                    y < height,
                    x <= width,
                    has_shape(state@, height as nat, width as nat),
                    text@ == rendered_upto(state@, y as int) + symbols(state@[y as int], x as int),
                    "#"@ == seq!['#'],
                    "-"@ == seq!['-'],
                    "?"@ == seq!['?'],
                    "x"@ == seq!['x'],
                decreases width - x,
            {
                let cell = array_get(state, y, x);
                let ghost before = text@;
                if cell == 1 {
                    text.append("#");
                } else if cell == 0 {
                    text.append("-");
                } else if cell == -1 {
                    text.append("?");
                } else {
                    text.append("x");
                }
                assert(text@ =~= before.push(symbol(cell)));
                assert(symbols(state@[y as int], x + 1) =~= symbols(
                    state@[y as int],
                    x as int,
                ).push(symbol(cell)));
                x += 1;
            }
            let ghost before = text@;
            text.append("\n");
            assert(text@ =~= before.push('\n'));
            y += 1;
        }
        text
    }

    /// Whether a grid can be the target of a search: it has at least one
    /// row and one column, and all its cells are dead or alive.
    pub fn is_valid_target(target_state: &Grid) -> (valid: bool)
        ensures
            valid == valid_target(target_state@),
    {
        let width = target_state.ncols();
        target_state.nrows() >= 1 && width >= 1 && target_state.is_binary()
    }

    /// Whether one step of the simulator turns `candidate`, a grid of dead
    /// and live cells, into `target`: the test of what a search returned.
    pub fn is_predecessor_of(candidate: &Grid, target: &Grid) -> (yes: bool)
        ensures
            yes == (is_predecessor(candidate@, target@) && candidate.width() == target.width()),
    {
        if !candidate.is_binary() {
            return false;
        }
        let mut game = GameOfLife::new(candidate.clone());
        game.step();
        game.state.same_as(target)
    }

    /// A search for the predecessors of `target_state`, scanning column by
    /// column where `solve_flow_y` is true and row by row where it is false.
    pub fn new(target_state: Grid, solve_flow_y: bool) -> (reverser: GameOfLifeReverser)
        requires
            valid_target(target_state@),
        ensures
            reverser.target() == target_state@,
            reverser.flow_y() == solve_flow_y,
            reverser.catalogs().wf(),
    {
        let height = target_state.nrows();
        let width = target_state.ncols();
        let config = GameConfig::new();
        GameOfLifeReverser { target_state, height, width, config, solve_flow_y }
    }

    /// A predecessor of the target, if there is one. The first position of
    /// the scan is searched by several workers at once, one candidate
    /// pattern each, and the first predecessor that any of them finds is
    /// returned: which one that is may differ from call to call.
    pub fn find_previous_state(&mut self) -> (found: Option<Grid>)
        ensures
            *final(self) == *old(self),
            found is Some == has_predecessor(old(self).target()),
            found matches Some(p) ==> is_predecessor(p@, old(self).target()) && p.width()
                == old(self).target()[0].len(),
    {
        proof {
            use_type_invariant(&*self);
        }
        let mut initial_state = self.target_state.clone();
        array_fill(&mut initial_state, UNKNOWN);
        proof {
            self.lemma_initial_state(initial_state@);
        }
        let result = self.solve_recursively(0, 0, &initial_state, true);
        proof {
            let target = self.target_state@;
            if result is Some {
                assert(is_predecessor(result->0@, target));
            } else {
                assert forall|q: Seq<Seq<i8>>| !is_predecessor(q, target) by {
                    if is_predecessor(q, target) {
                        assert(solution(q, target, initial_state@));
                    }
                }
            }
        }
        result
    }

    /// The predecessor of the target that a scan meets first when it tries
    /// the candidate patterns of every position one after the other, in the
    /// order of the catalog; `None` where the target has no predecessor.
    pub fn find_first_previous_state(&self) -> (found: Option<Grid>)
        ensures
            found is Some == has_predecessor(self.target()),
            found matches Some(p) ==> is_first_predecessor(p@, self.target(), self.flow_y())
                && p.width() == self.target()[0].len(),
    {
        proof {
            use_type_invariant(self);
        }
        let mut initial_state = self.target_state.clone();
        array_fill(&mut initial_state, UNKNOWN);
        proof {
            self.lemma_initial_state(initial_state@);
        }
        let result = self.solve_recursively(0, 0, &initial_state, false);
        proof {
            let target = self.target_state@;
            if result is Some {
                let p = result->0@;
                assert(is_predecessor(p, target));
                assert forall|q: Seq<Seq<i8>>| #[trigger]
                    is_predecessor(q, target) implies search_le(p, q, self.solve_flow_y, 0, 0) by {
                    assert(solution(q, target, initial_state@));
                }
            } else {
                assert forall|q: Seq<Seq<i8>>| !is_predecessor(q, target) by {
                    if is_predecessor(q, target) {
                        assert(solution(q, target, initial_state@));
                    }
                }
            }
        }
        result
    }

    /// A grid of unknown cells is where the search starts, and every
    /// predecessor of the target agrees with it.
    proof fn lemma_initial_state(&self, initial: Seq<Seq<i8>>)
        requires
            self.inv(),
            initial == uniform_rows(self.height as nat, self.width as nat, -1i8),
        ensures
            searching(initial, self.target_state@, self.solve_flow_y, 0, 0),
            forall|q: Seq<Seq<i8>>| #[trigger]
                is_predecessor(q, self.target_state@) ==> solution(q, self.target_state@, initial),
    {
    }

    /// What must hold for a pattern to be tried at `(y, x)` on `state`.
    spec fn candidate_ready(&self, x: usize, y: usize, state: Grid, pattern: Grid) -> bool {
        &&& self.inv()
        &&& x < self.width
        &&& y < self.height
        &&& state.width() == self.width
        &&& searching(state@, self.target_state@, self.solve_flow_y, y as int, x as int)
        &&& is_pattern(pattern@)
        &&& pattern.width() == 3
        &&& produces(pattern@, self.target_state@[y as int][x as int])
    }

    /// What holds of the result of trying a pattern at `(y, x)` on `state`.
    spec fn candidate_found(
        &self,
        x: usize,
        y: usize,
        state: Grid,
        pattern: Grid,
        found: Option<Grid>,
    ) -> bool {
        &&& candidate_outcome(
            self.target_state@,
            self.solve_flow_y,
            state@,
            y as int,
            x as int,
            pattern@,
            found_rows(found),
        )
        &&& found matches Some(p) ==> p.width() == self.width
    }

    /// How far the scan still has to go from `(y, x)`, for termination.
    spec fn distance(&self, x: usize, y: usize) -> (int, int) {
        if self.solve_flow_y {
            (self.width - x, self.height - y)
        } else {
            (self.height - y, self.width - x)
        }
    }

    /// Searches from `(y, x)` on, with every earlier position settled in
    /// `state`: tries the candidate patterns for the target's cell, in the
    /// order of the catalog or, where `first` is true, all at once.
    fn solve_recursively(&self, x: usize, y: usize, state: &Grid, first: bool) -> (found: Option<
        Grid,
    >)
        requires
            self.inv(),
            x < self.width,
            y < self.height,
            state.width() == self.width,
            searching(state@, self.target_state@, self.solve_flow_y, y as int, x as int),
        ensures
            found matches Some(p) ==> {
                &&& solution(p@, self.target_state@, state@)
                &&& p.width() == self.width
                &&& !first ==> forall|q: Seq<Seq<i8>>| #[trigger]
                    solution(q, self.target_state@, state@) ==> search_le(
                        p@,
                        q,
                        self.solve_flow_y,
                        y as int,
                        x as int,
                    )
            },
            found is None ==> forall|q: Seq<Seq<i8>>| !solution(q, self.target_state@, state@),
        decreases self.distance(x, y).0, self.distance(x, y).1, 1int,
    {
        let patterns = if array_get(&self.target_state, y, x) == ALIVE {
            &self.config.alive_patterns
        } else {
            &self.config.dead_patterns
        };
        let ghost target = self.target_state@;
        let ghost flow_y = self.solve_flow_y;
        let ghost end_state = target[y as int][x as int];
        assert(is_bit(end_state));
        assert(is_catalog(patterns@, end_state));
        if !first {
            let mut i: usize = 0;
            while i < patterns.len()
                invariant
                    self.inv(),
                    x < self.width,
                    y < self.height,
                    state.width() == self.width,
                    searching(state@, target, flow_y, y as int, x as int),
                    target == self.target_state@,
                    flow_y == self.solve_flow_y,
                    end_state == target[y as int][x as int],
                    is_catalog(patterns@, end_state),
                    i <= patterns.len(),
                    forall|j: int|
                        0 <= j < i ==> self.candidate_found(
                            x,
                            y,
                            *state,
                            #[trigger] patterns[j],
                            None,
                        ),
                decreases patterns.len() - i,
            {
                let found = self.try_candidate(x, y, state, &patterns[i]);
                if found.is_some() {
                    proof {
                        self.lemma_first_candidate(x, y, *state, patterns@, i as int, found);
                    }
                    return found;
                }
                i += 1;
            }
            proof {
                self.lemma_no_candidate(x, y, *state, patterns@);
            }
            None
        } else {
            let found = self.find_any(x, y, state, patterns);
            proof {
                if found is None {
                    self.lemma_no_candidate(x, y, *state, patterns@);
                }
            }
            found
        }
    }

    /// Where every pattern of the catalog was tried in vain, no predecessor
    /// agrees with the state.
    proof fn lemma_no_candidate(&self, x: usize, y: usize, state: Grid, patterns: Seq<Grid>)
        requires
            self.inv(),
            x < self.width,
            y < self.height,
            is_catalog(patterns, self.target_state@[y as int][x as int]),
            forall|j: int|
                0 <= j < patterns.len() ==> self.candidate_found(
                    x,
                    y,
                    state,
                    #[trigger] patterns[j],
                    None,
                ),
        ensures
            forall|q: Seq<Seq<i8>>| !solution(q, self.target_state@, state@),
    {
        let target = self.target_state@;
        assert forall|q: Seq<Seq<i8>>| !solution(q, target, state@) by {
            if solution(q, target, state@) {
                let j = self.lemma_window_listed(x, y, patterns, q);
                assert(self.candidate_found(x, y, state, patterns[j], None));
            }
        }
    }

    /// The window of a predecessor at `(y, x)` stands in the catalog of the
    /// target's cell.
    proof fn lemma_window_listed(
        &self,
        x: usize,
        y: usize,
        patterns: Seq<Grid>,
        q: Seq<Seq<i8>>,
    ) -> (j: int)
        requires
            self.inv(),
            x < self.width,
            y < self.height,
            is_catalog(patterns, self.target_state@[y as int][x as int]),
            is_predecessor(q, self.target_state@),
        ensures
            0 <= j < patterns.len(),
            patterns[j]@ == neighborhood(q, y as int, x as int),
    {
        let target = self.target_state@;
        let window = neighborhood(q, y as int, x as int);
        assert(q[0].len() == target[0].len());
        assert(rectangular(q, q[0].len())) by {
            assert forall|r: int| 0 <= r < q.len() implies (#[trigger] q[r]).len()
                == q[0].len() by {
                assert(target[r].len() == target[0].len());
            }
        }
        lemma_window_of_binary(q, y as int, x as int);
        assert(q[y as int].len() == target[y as int].len());
        assert(step_rows(q)[y as int][x as int] == target[y as int][x as int]);
        assert(is_bit(target[y as int][x as int]));
        assert(produces(window, target[y as int][x as int]));
        assert(lists(patterns, window));
        choose|j: int| 0 <= j < patterns.len() && (#[trigger] patterns[j])@ == window
    }

    /// The first pattern of the catalog that leads to a predecessor leads to
    /// the first predecessor.
    proof fn lemma_first_candidate(
        &self,
        x: usize,
        y: usize,
        state: Grid,
        patterns: Seq<Grid>,
        i: int,
        found: Option<Grid>,
    )
        requires
            self.inv(),
            x < self.width,
            y < self.height,
            is_catalog(patterns, self.target_state@[y as int][x as int]),
            0 <= i < patterns.len(),
            found is Some,
            self.candidate_found(x, y, state, patterns[i], found),
            forall|j: int|
                0 <= j < i ==> self.candidate_found(x, y, state, #[trigger] patterns[j], None),
        ensures
            forall|q: Seq<Seq<i8>>| #[trigger]
                solution(q, self.target_state@, state@) ==> search_le(
                    found->0@,
                    q,
                    self.solve_flow_y,
                    y as int,
                    x as int,
                ),
    {
        let target = self.target_state@;
        let p = found->0@;
        assert forall|q: Seq<Seq<i8>>| #[trigger] solution(q, target, state@) implies search_le(
            p,
            q,
            self.solve_flow_y,
            y as int,
            x as int,
        ) by {
            let j = self.lemma_window_listed(x, y, patterns, q);
            if j < i {
                assert(self.candidate_found(x, y, state, patterns[j], None));
            } else if j > i {
                assert(search_key(patterns[i]@) < search_key(patterns[j]@));
                if pattern_code(patterns[i]@) == pattern_code(patterns[j]@) {
                    lemma_same_code_same_pattern(patterns[i]@, patterns[j]@);
                }
                assert(p.len() == target.len() && p[0].len() == target[0].len());
            }
        }
    }

    /// Tries one pattern at `(y, x)`: lays it over a copy of the state and,
    /// where it fits, searches on from the next position.
    fn try_candidate(&self, x: usize, y: usize, state: &Grid, pattern: &Grid) -> (found: Option<
        Grid,
    >)
        requires
            self.candidate_ready(x, y, *state, *pattern),
        ensures
            self.candidate_found(x, y, *state, *pattern, found),
        decreases self.distance(x, y).0, self.distance(x, y).1, 0int,
    {
        let ghost target = self.target_state@;
        let ghost flow_y = self.solve_flow_y;
        let ghost height = self.height as int;
        let ghost width = self.width as int;
        let mut current_state = state.clone();
        if !self.try_pattern(x, y, &mut current_state, pattern) {
            proof {
                assert forall|q: Seq<Seq<i8>>| #[trigger]
                    solution(q, target, state@) implies neighborhood(q, y as int, x as int)
                    != pattern@ by {
                    lemma_solution_fits(q, state@, y as int, x as int);
                }
            }
            return None;
        }
        proof {
            lemma_merged(state@, y as int, x as int, pattern@);
            lemma_next_position(height, width, flow_y, y as int, x as int);
            assert forall|qy: int, qx: int|
                in_grid(target, qy, qx) && (before(flow_y, qy, qx, y as int, x as int) || (qy == y
                    && qx == x)) implies #[trigger] settled(current_state@, target, qy, qx) by {
                if before(flow_y, qy, qx, y as int, x as int) {
                    assert(settled(state@, target, qy, qx));
                    lemma_extends_keeps_window(current_state@, state@, qy, qx);
                }
            }
            assert forall|q: Seq<Seq<i8>>| #[trigger]
                solution(q, target, state@) && neighborhood(q, y as int, x as int)
                    == pattern@ implies solution(q, target, current_state@) by {
                lemma_solution_fits(q, state@, y as int, x as int);
            }
        }
        if self.is_complete(x, y) {
            proof {
                assert forall|qy: int, qx: int| in_grid(target, qy, qx) implies #[trigger] settled(
                    current_state@,
                    target,
                    qy,
                    qx,
                ) by {
                    assert(before(flow_y, qy, qx, y as int, x as int) || (qy == y && qx == x));
                }
                lemma_all_settled(current_state@, target);
                assert forall|q: Seq<Seq<i8>>| #[trigger]
                    solution(q, target, state@) && neighborhood(q, y as int, x as int)
                        == pattern@ implies search_le(
                    current_state@,
                    q,
                    flow_y,
                    y as int,
                    x as int,
                ) by {
                    assert(solution(q, target, current_state@));
                    assert(completes(q, current_state@));
                    lemma_search_le_reflexive(q, flow_y, y as int, x as int);
                }
            }
            return Some(current_state);
        }
        let next_x: usize;
        let next_y: usize;
        if self.solve_flow_y {
            if y + 1 < self.height {
                next_y = y + 1;
                next_x = x;
            } else {
                next_y = 0;
                next_x = x + 1;
            }
        } else {
            if x + 1 < self.width {
                next_x = x + 1;
                next_y = y;
            } else {
                next_x = 0;
                next_y = y + 1;
            }
        }
        assert((next_y as int, next_x as int) == next_position(
            height,
            width,
            flow_y,
            y as int,
            x as int,
        ));
        let found = self.solve_recursively(next_x, next_y, &current_state, false);
        proof {
            if found is Some {
                let p = found->0@;
                lemma_solution_of_merged(p, state@, y as int, x as int, pattern@);
                assert(p.len() == height && p[0].len() == width);
                assert forall|q: Seq<Seq<i8>>| #[trigger]
                    solution(q, target, state@) && neighborhood(q, y as int, x as int)
                        == pattern@ implies search_le(p, q, flow_y, y as int, x as int) by {
                    assert(solution(q, target, current_state@));
                }
            } else {
                assert forall|q: Seq<Seq<i8>>| #[trigger]
                    solution(q, target, state@) implies neighborhood(q, y as int, x as int)
                    != pattern@ by {
                    if neighborhood(q, y as int, x as int) == pattern@ {
                        assert(solution(q, target, current_state@));
                    }
                }
            }
        }
        found
    }

    /// Hands the candidate patterns of the first position to the workers of
    /// `rayon` (`par_iter` and `find_map_any`), each of which tries its
    /// pattern with [`Self::try_candidate`].
    ///
    /// Trusted: `find_map_any` returns what the closure returned for one of
    /// the patterns if that was not `None` for all of them, and `None` only
    /// if the closure returned `None` for every pattern. Which pattern's
    /// result is returned is not determined.
    #[verifier::external_body]
    fn find_any(&self, x: usize, y: usize, state: &Grid, patterns: &Vec<Grid>) -> (found: Option<
        Grid,
    >)
        requires
            forall|i: int|
                0 <= i < patterns.len() ==> self.candidate_ready(
                    x,
                    y,
                    *state,
                    #[trigger] patterns[i],
                ),
        ensures
            found is Some ==> exists|i: int|
                0 <= i < patterns.len() && self.candidate_found(
                    x,
                    y,
                    *state,
                    #[trigger] patterns[i],
                    found,
                ),
            found is None ==> forall|i: int|
                0 <= i < patterns.len() ==> self.candidate_found(
                    x,
                    y,
                    *state,
                    #[trigger] patterns[i],
                    found,
                ),
    {
        patterns.par_iter().find_map_any(|pattern| self.try_candidate(x, y, state, pattern))
    }

    /// Lays `pattern` over the window around `(y, x)` of `state`, cell by
    /// cell. Returns whether it fits; where it does not, `state` is left
    /// with the cells that were laid before the misfit was found.
    fn try_pattern(&self, x: usize, y: usize, state: &mut Grid, pattern: &Grid) -> (fitted: bool)
        requires
            self.inv(),
            x < self.width,
            y < self.height,
            has_shape(old(state)@, self.height as nat, self.width as nat),
            old(state).width() == self.width,
            is_pattern(pattern@),
        ensures
            fitted == fits(old(state)@, y as int, x as int, pattern@),
            fitted ==> final(state)@ == merged(old(state)@, y as int, x as int, pattern@),
            has_shape(final(state)@, self.height as nat, self.width as nat),
            final(state).width() == self.width,
            forall|r: int, c: int|
                in_grid(old(state)@, r, c) && old(state)@[r][c] != -1 && !fitted ==> (
                #[trigger] final(state)@[r][c]) == old(state)@[r][c],
    {
        let ghost before_state = state@;
        let ghost m = pattern@;
        let mut k: usize = 0;
        while k < 9
            invariant
                self.inv(),
                k <= 9,
                x < self.width,
                y < self.height,
                before_state == old(state)@,
                m == pattern@,
                is_pattern(m),
                has_shape(before_state, self.height as nat, self.width as nat),
                has_shape(state@, self.height as nat, self.width as nat),
                state.width() == self.width,
                forall|dy: int, dx: int|
                    0 <= dy < 3 && 0 <= dx < 3 && 3 * dy + dx < k ==> #[trigger] fits_at(
                        before_state,
                        y as int,
                        x as int,
                        m,
                        dy,
                        dx,
                    ),
                forall|r: int, c: int|
                    in_grid(before_state, r, c) ==> (#[trigger] state@[r][c]) == (if in_window(
                        y as int,
                        x as int,
                        r,
                        c,
                    ) && 3 * (r - y + 1) + (c - x + 1) < k {
                        m[r - y + 1][c - x + 1]
                    } else {
                        before_state[r][c]
                    }),
            decreases 9 - k,
        {
            let dy = k / 3;
            let dx = k % 3;
            let new_x = x as i128 + dx as i128 - 1;
            let new_y = y as i128 + dy as i128 - 1;
            if !self.is_valid_position(new_x, new_y) {
                if self.pattern_conflicts_with_boundary(pattern, new_x, new_y) {
                    proof {
                        let ghost height = self.height as int;
                        let ghost width = self.width as int;
                        if new_x < 0 && column_alive(m, 0) {
                            let r = if m[0][0] != 0 {
                                0int
                            } else if m[1][0] != 0 {
                                1int
                            } else {
                                2int
                            };
                            assert(!fits_at(before_state, y as int, x as int, m, r, 0));
                        } else if new_x >= width && column_alive(m, 2) {
                            let r = if m[0][2] != 0 {
                                0int
                            } else if m[1][2] != 0 {
                                1int
                            } else {
                                2int
                            };
                            assert(!fits_at(before_state, y as int, x as int, m, r, 2));
                        } else if new_y < 0 && row_alive(m, 0) {
                            let c = if m[0][0] != 0 {
                                0int
                            } else if m[0][1] != 0 {
                                1int
                            } else {
                                2int
                            };
                            assert(!fits_at(before_state, y as int, x as int, m, 0, c));
                        } else {
                            let c = if m[2][0] != 0 {
                                0int
                            } else if m[2][1] != 0 {
                                1int
                            } else {
                                2int
                            };
                            assert(!fits_at(before_state, y as int, x as int, m, 2, c));
                        }
                        self.lemma_known_cells_stay(before_state, state@, x, y, m, k as int);
                    }
                    return false;
                }
                assert(fits_at(before_state, y as int, x as int, m, dy as int, dx as int));
            } else {
                let pattern_value = array_get(pattern, dy, dx);
                let cell_x = new_x as usize;
                let cell_y = new_y as usize;
                let cell = array_get(state, cell_y, cell_x);
                assert(cell == before_state[cell_y as int][cell_x as int]);
                if cell != UNKNOWN && cell != pattern_value {
                    proof {
                        assert(!fits_at(before_state, y as int, x as int, m, dy as int, dx as int));
                        self.lemma_known_cells_stay(before_state, state@, x, y, m, k as int);
                    }
                    return false;
                }
                let ghost previous = state@;
                array_set(state, cell_y, cell_x, pattern_value);
                assert forall|r: int| 0 <= r < state@.len() implies (#[trigger] state@[r]).len()
                    == self.width by {
                    assert(previous[r].len() == self.width);
                }
                assert(fits_at(before_state, y as int, x as int, m, dy as int, dx as int));
            }
            k += 1;
        }
        proof {
            assert forall|dy: int, dx: int| 0 <= dy < 3 && 0 <= dx < 3 implies #[trigger] fits_at(
                before_state,
                y as int,
                x as int,
                m,
                dy,
                dx,
            ) by {
                assert(3 * dy + dx < 9);
            }
            assert(state@ =~~= merged(before_state, y as int, x as int, m));
        }
        true
    }

    /// While a pattern is being laid, every cell that was known before
    /// still holds its value.
    proof fn lemma_known_cells_stay(
        &self,
        before_state: Seq<Seq<i8>>,
        state: Seq<Seq<i8>>,
        x: usize,
        y: usize,
        m: Seq<Seq<i8>>,
        k: int,
    )
        requires
            0 <= k <= 9,
            forall|dy: int, dx: int|
                0 <= dy < 3 && 0 <= dx < 3 && 3 * dy + dx < k ==> #[trigger] fits_at(
                    before_state,
                    y as int,
                    x as int,
                    m,
                    dy,
                    dx,
                ),
            forall|r: int, c: int|
                in_grid(before_state, r, c) ==> (#[trigger] state[r][c]) == (if in_window(
                    y as int,
                    x as int,
                    r,
                    c,
                ) && 3 * (r - y + 1) + (c - x + 1) < k {
                    m[r - y + 1][c - x + 1]
                } else {
                    before_state[r][c]
                }),
        ensures
            forall|r: int, c: int|
                in_grid(before_state, r, c) && before_state[r][c] != -1 ==> (#[trigger] state[r][c])
                    == before_state[r][c],
    {
        assert forall|r: int, c: int|
            in_grid(before_state, r, c) && before_state[r][c] != -1 implies (#[trigger] state[r][c])
            == before_state[r][c] by {
            if in_window(y as int, x as int, r, c) && 3 * (r - y + 1) + (c - x + 1) < k {
                assert(fits_at(before_state, y as int, x as int, m, r - y + 1, c - x + 1));
            }
        }
    }

    /// Whether `(y, x)` lies inside the target's grid.
    fn is_valid_position(&self, x: i128, y: i128) -> (valid: bool)
        requires
            self.inv(),
        ensures
            valid == (0 <= x < self.width && 0 <= y < self.height),
    {
        x >= 0 && x < self.width as i128 && y >= 0 && y < self.height as i128
    }

    /// Whether `pattern` is alive on a side on which `(new_y, new_x)` lies
    /// outside the target's grid.
    fn pattern_conflicts_with_boundary(
        &self,
        pattern: &Grid,
        new_x: i128,
        new_y: i128,
    ) -> (conflict: bool)
        requires
            self.inv(),
            is_pattern(pattern@),
        ensures
            conflict == boundary_conflict(
                pattern@,
                new_y as int,
                new_x as int,
                self.height as int,
                self.width as int,
            ),
    {
        if new_x < 0 && column_has_alive(pattern, 0) {
            return true;
        }
        if new_x >= self.width as i128 && column_has_alive(pattern, 2) {
            return true;
        }
        if new_y < 0 && row_has_alive(pattern, 0) {
            return true;
        }
        if new_y >= self.height as i128 && row_has_alive(pattern, 2) {
            return true;
        }
        false
    }

    /// Whether `(y, x)` is the last position of the scan.
    fn is_complete(&self, x: usize, y: usize) -> (complete: bool)
        requires
            self.inv(),
        ensures
            complete == (y == self.height - 1 && x == self.width - 1),
    {
        y == self.height - 1 && x == self.width - 1
    }
}

/// Whether column `c` of a pattern holds a cell that is not dead.
fn column_has_alive(pattern: &Grid, c: usize) -> (alive: bool)
    requires
        is_pattern(pattern@),
        c < 3,
    ensures
        alive == column_alive(pattern@, c as int),
{
    array_get(pattern, 0, c) != 0 || array_get(pattern, 1, c) != 0 || array_get(pattern, 2, c) != 0
}

/// Whether row `r` of a pattern holds a cell that is not dead.
fn row_has_alive(pattern: &Grid, r: usize) -> (alive: bool)
    requires
        is_pattern(pattern@),
        r < 3,
    ensures
        alive == row_alive(pattern@, r as int),
{
    array_get(pattern, r, 0) != 0 || array_get(pattern, r, 1) != 0 || array_get(pattern, r, 2) != 0
}

} // verus!
