//! What the reverse search looks for, and the facts that its proof rests on.
//!
//! The search fills a grid of unknown cells position by position. At each
//! position it lays a pattern from the catalog over the 3×3 window around
//! the position; the pattern must agree with what earlier windows have left
//! there and must be dead wherever the window leaves the grid.

use vstd::prelude::*;
use crate::grid::{binary, in_grid, is_bit, rectangular};
use crate::patterns::{
    is_pattern, lemma_same_code_same_pattern, neighbor_sum, outcome, part, pattern_code,
    search_key,
};
use crate::rule::{alive_at, live_neighbors, next_cell, step_rows};

verus! {

/// The cell at `(y, x)`, or a dead cell outside the grid.
pub open spec fn cell_or_dead(rows: Seq<Seq<i8>>, y: int, x: int) -> i8 {
    if in_grid(rows, y, x) {
        rows[y][x]
    } else {
        0
    }
}

/// The 3×3 window around `(y, x)`, with dead cells where it leaves the grid.
pub open spec fn neighborhood(rows: Seq<Seq<i8>>, y: int, x: int) -> Seq<Seq<i8>> {
    Seq::new(3, |dy: int| Seq::new(3, |dx: int| cell_or_dead(rows, y + dy - 1, x + dx - 1)))
}

/// `a` and `b` have the same number of rows and, row by row, of cells.
pub open spec fn same_shape(a: Seq<Seq<i8>>, b: Seq<Seq<i8>>) -> bool {
    a.len() == b.len() && forall|y: int| 0 <= y < a.len() ==> (#[trigger] a[y]).len() == b[y].len()
}

/// A target of the search: at least one row and one column, and every cell
/// dead or alive.
pub open spec fn valid_target(target: Seq<Seq<i8>>) -> bool {
    target.len() >= 1 && rectangular(target, target[0].len()) && target[0].len() >= 1 && binary(
        target,
    )
}

/// `candidate` is a grid of dead and live cells that the rule turns into
/// `target` in one step.
pub open spec fn is_predecessor(candidate: Seq<Seq<i8>>, target: Seq<Seq<i8>>) -> bool {
    same_shape(candidate, target) && binary(candidate) && step_rows(candidate) == target
}

/// Some grid is a predecessor of `target`.
pub open spec fn has_predecessor(target: Seq<Seq<i8>>) -> bool {
    exists|candidate: Seq<Seq<i8>>| is_predecessor(candidate, target)
}

/// Every cell of `rows` is dead, alive or unknown.
pub open spec fn ternary(rows: Seq<Seq<i8>>) -> bool {
    forall|y: int, x: int|
        in_grid(rows, y, x) ==> -1 <= (#[trigger] rows[y][x]) <= 1
}

/// `a` has the shape of `b` and holds every cell that `b` knows.
pub open spec fn extends(a: Seq<Seq<i8>>, b: Seq<Seq<i8>>) -> bool {
    same_shape(a, b) && forall|y: int, x: int|
        in_grid(b, y, x) && b[y][x] != -1 ==> (#[trigger] a[y][x]) == b[y][x]
}

/// `full` is a grid of dead and live cells that agrees with every known
/// cell of `state`.
pub open spec fn completes(full: Seq<Seq<i8>>, state: Seq<Seq<i8>>) -> bool {
    binary(full) && extends(full, state)
}

/// The pattern `m` can be laid over the window around `(y, x)`: inside the
/// grid each cell is unknown or already holds the pattern's value, and
/// outside the grid the pattern is dead.
pub open spec fn fits(state: Seq<Seq<i8>>, y: int, x: int, m: Seq<Seq<i8>>) -> bool {
    forall|dy: int, dx: int|
        0 <= dy < 3 && 0 <= dx < 3 ==> #[trigger] fits_at(state, y, x, m, dy, dx)
}

/// [`fits`] for the one cell at offset `(dy, dx)` of the pattern.
pub open spec fn fits_at(
    state: Seq<Seq<i8>>,
    y: int,
    x: int,
    m: Seq<Seq<i8>>,
    dy: int,
    dx: int,
) -> bool {
    if in_grid(state, y + dy - 1, x + dx - 1) {
        state[y + dy - 1][x + dx - 1] == -1 || state[y + dy - 1][x + dx - 1] == m[dy][dx]
    } else {
        m[dy][dx] == 0
    }
}

/// `(r, c)` lies in the 3×3 window around `(y, x)`.
pub open spec fn in_window(y: int, x: int, r: int, c: int) -> bool {
    y - 1 <= r <= y + 1 && x - 1 <= c <= x + 1
}

/// `state` with the pattern `m` laid over the window around `(y, x)`.
pub open spec fn merged(state: Seq<Seq<i8>>, y: int, x: int, m: Seq<Seq<i8>>) -> Seq<Seq<i8>> {
    Seq::new(
        state.len(),
        |r: int|
            Seq::new(
                state[r].len(),
                |c: int|
                    if in_window(y, x, r, c) {
                        m[r - y + 1][c - x + 1]
                    } else {
                        state[r][c]
                    },
            ),
    )
}

/// `(y1, x1)` comes before `(y2, x2)` in the order of the scan: row by row
/// where `flow_y` is false, column by column where it is true.
pub open spec fn before(flow_y: bool, y1: int, x1: int, y2: int, x2: int) -> bool {
    if flow_y {
        x1 < x2 || (x1 == x2 && y1 < y2)
    } else {
        y1 < y2 || (y1 == y2 && x1 < x2)
    }
}

/// The position after `(y, x)` in the order of the scan of a grid of
/// `height` rows and `width` columns. After the last position it lies
/// outside the grid.
pub open spec fn next_position(height: int, width: int, flow_y: bool, y: int, x: int) -> (
    int,
    int,
) {
    if flow_y {
        if y + 1 < height {
            (y + 1, x)
        } else {
            (0, x + 1)
        }
    } else {
        if x + 1 < width {
            (y, x + 1)
        } else {
            (y + 1, 0)
        }
    }
}

/// The window around `(y, x)` is known and produces the target's cell.
pub open spec fn settled(state: Seq<Seq<i8>>, target: Seq<Seq<i8>>, y: int, x: int) -> bool {
    is_pattern(neighborhood(state, y, x)) && outcome(neighborhood(state, y, x)) == target[y][x]
}

/// What holds of the state of the search when it reaches `(y, x)`: it has
/// the target's shape, and every position before `(y, x)` is settled.
pub open spec fn searching(
    state: Seq<Seq<i8>>,
    target: Seq<Seq<i8>>,
    flow_y: bool,
    y: int,
    x: int,
) -> bool {
    &&& same_shape(state, target)
    &&& ternary(state)
    &&& forall|qy: int, qx: int|
        in_grid(target, qy, qx) && before(flow_y, qy, qx, y, x) ==> #[trigger] settled(
            state,
            target,
            qy,
            qx,
        )
}

/// `full` is a predecessor of `target` that agrees with `state`.
pub open spec fn solution(full: Seq<Seq<i8>>, target: Seq<Seq<i8>>, state: Seq<Seq<i8>>) -> bool {
    is_predecessor(full, target) && completes(full, state)
}

/// `p` comes no later than `q` in the order in which the search meets full
/// grids, from `(y, x)` on: at the first position of the scan where their
/// windows differ, the window of `p` stands earlier in the catalog.
pub open spec fn search_le(p: Seq<Seq<i8>>, q: Seq<Seq<i8>>, flow_y: bool, y: int, x: int) -> bool
    decreases
        (if flow_y { p[0].len() - x } else { p.len() - y }),
        (if flow_y { p.len() - y } else { p[0].len() - x }),
{
    let height = p.len() as int;
    let width = p[0].len() as int;
    if !(0 <= y < height && 0 <= x < width) {
        true
    } else if pattern_code(neighborhood(p, y, x)) == pattern_code(neighborhood(q, y, x)) {
        let next = next_position(height, width, flow_y, y, x);
        search_le(p, q, flow_y, next.0, next.1)
    } else {
        search_key(neighborhood(p, y, x)) < search_key(neighborhood(q, y, x))
    }
}

/// `p` is the predecessor of `target` that a scan in the direction `flow_y`
/// meets first.
pub open spec fn is_first_predecessor(p: Seq<Seq<i8>>, target: Seq<Seq<i8>>, flow_y: bool) -> bool {
    is_predecessor(p, target) && forall|q: Seq<Seq<i8>>| #[trigger]
        is_predecessor(q, target) ==> search_le(p, q, flow_y, 0, 0)
}

/// In a grid of dead and live cells every window is a pattern, its centre is
/// the cell itself, and the cells around the centre are the live neighbours.
pub proof fn lemma_window_of_binary(rows: Seq<Seq<i8>>, y: int, x: int)
    requires
        binary(rows),
        rows.len() >= 1,
        rectangular(rows, rows[0].len()),
    ensures
        is_pattern(neighborhood(rows, y, x)),
        neighbor_sum(neighborhood(rows, y, x)) == live_neighbors(rows, y, x),
        neighborhood(rows, y, x)[1][1] == cell_or_dead(rows, y, x),
{
    let m = neighborhood(rows, y, x);
    assert forall|dy: int, dx: int| 0 <= dy < 3 && 0 <= dx < 3 implies is_bit(#[trigger] m[dy][dx])
        && m[dy][dx] == alive_at(rows, y + dy - 1, x + dx - 1) by {
        if in_grid(rows, y + dy - 1, x + dx - 1) {
            assert(is_bit(rows[y + dy - 1][x + dx - 1]));
        }
    }
    assert(part(m, 0) == m[0][0] && part(m, 1) == m[0][1] && part(m, 2) == m[0][2]);
    assert(part(m, 3) == m[1][0] && part(m, 4) == m[1][1] && part(m, 5) == m[1][2]);
    assert(part(m, 6) == m[2][0] && part(m, 7) == m[2][1] && part(m, 8) == m[2][2]);
}

/// A grid of dead and live cells is a predecessor of `target` exactly if
/// each of its windows produces the target's cell.
pub proof fn lemma_predecessor_by_windows(full: Seq<Seq<i8>>, target: Seq<Seq<i8>>)
    requires
        valid_target(target),
        same_shape(full, target),
        binary(full),
    ensures
        is_predecessor(full, target) <==> forall|y: int, x: int|
            in_grid(target, y, x) ==> #[trigger] settled(full, target, y, x),
{
    assert forall|y: int, x: int| in_grid(target, y, x) implies (#[trigger] settled(
        full,
        target,
        y,
        x,
    ) <==> step_rows(full)[y][x] == target[y][x]) by {
        lemma_window_of_binary(full, y, x);
    }
    if forall|y: int, x: int| in_grid(target, y, x) ==> #[trigger] settled(full, target, y, x) {
        assert forall|y: int| 0 <= y < target.len() implies #[trigger] step_rows(full)[y]
            == target[y] by {
            assert forall|x: int| 0 <= x < target[y].len() implies #[trigger] step_rows(full)[y][x]
                == target[y][x] by {
                assert(settled(full, target, y, x));
            }
            assert(step_rows(full)[y] =~= target[y]);
        }
        assert(step_rows(full) =~= target);
    }
}

/// A grid that extends another has the same windows wherever the other's
/// window is known.
pub proof fn lemma_extends_keeps_window(a: Seq<Seq<i8>>, b: Seq<Seq<i8>>, y: int, x: int)
    requires
        extends(a, b),
        is_pattern(neighborhood(b, y, x)),
    ensures
        neighborhood(a, y, x) == neighborhood(b, y, x),
{
    let na = neighborhood(a, y, x);
    let nb = neighborhood(b, y, x);
    assert forall|dy: int, dx: int| 0 <= dy < 3 && 0 <= dx < 3 implies #[trigger] na[dy][dx]
        == nb[dy][dx] by {
        assert(is_bit(nb[dy][dx]));
        if in_grid(b, y + dy - 1, x + dx - 1) {
            assert(a[y + dy - 1][x + dx - 1] == b[y + dy - 1][x + dx - 1]);
        }
    }
    assert(na =~~= nb);
}

/// Laying a fitting pattern over a window keeps the shape and every known
/// cell, leaves no cell outside dead, alive and unknown, and makes the
/// window equal to the pattern.
pub proof fn lemma_merged(state: Seq<Seq<i8>>, y: int, x: int, m: Seq<Seq<i8>>)
    requires
        ternary(state),
        is_pattern(m),
        fits(state, y, x, m),
    ensures
        same_shape(merged(state, y, x, m), state),
        ternary(merged(state, y, x, m)),
        extends(merged(state, y, x, m), state),
        neighborhood(merged(state, y, x, m), y, x) == m,
{
    let after = merged(state, y, x, m);
    assert forall|r: int, c: int| in_grid(after, r, c) implies -1 <= (#[trigger] after[r][c])
        <= 1 by {
        if in_window(y, x, r, c) {
            assert(is_bit(m[r - y + 1][c - x + 1]));
        } else {
            assert(-1 <= state[r][c] <= 1);
        }
    }
    assert forall|r: int, c: int| in_grid(state, r, c) && state[r][c] != -1 implies (
    #[trigger] after[r][c]) == state[r][c] by {
        if in_window(y, x, r, c) {
            assert(fits_at(state, y, x, m, r - y + 1, c - x + 1));
        }
    }
    let window = neighborhood(after, y, x);
    assert forall|dy: int, dx: int| 0 <= dy < 3 && 0 <= dx < 3 implies #[trigger] window[dy][dx]
        == m[dy][dx] by {
        assert(fits_at(state, y, x, m, dy, dx));
    }
    assert(window =~~= m);
}

/// A full grid that agrees with the state fits the state with its own
/// window, and still agrees once that window is laid.
pub proof fn lemma_solution_fits(full: Seq<Seq<i8>>, state: Seq<Seq<i8>>, y: int, x: int)
    requires
        completes(full, state),
    ensures
        fits(state, y, x, neighborhood(full, y, x)),
        completes(full, merged(state, y, x, neighborhood(full, y, x))),
{
    let m = neighborhood(full, y, x);
    let after = merged(state, y, x, m);
    assert forall|dy: int, dx: int| 0 <= dy < 3 && 0 <= dx < 3 implies #[trigger] fits_at(
        state,
        y,
        x,
        m,
        dy,
        dx,
    ) by {
        if in_grid(state, y + dy - 1, x + dx - 1) {
            assert(state[y + dy - 1][x + dx - 1] != -1 ==> full[y + dy - 1][x + dx - 1]
                == state[y + dy - 1][x + dx - 1]);
        }
    }
    assert forall|r: int, c: int| in_grid(after, r, c) && after[r][c] != -1 implies (
    #[trigger] full[r][c]) == after[r][c] by {
        if !in_window(y, x, r, c) {
            assert(state[r][c] != -1 ==> full[r][c] == state[r][c]);
        }
    }
}

/// A full grid that agrees with the state after a pattern was laid agrees
/// with the state before, and has the pattern as its window.
pub proof fn lemma_solution_of_merged(
    full: Seq<Seq<i8>>,
    state: Seq<Seq<i8>>,
    y: int,
    x: int,
    m: Seq<Seq<i8>>,
)
    requires
        ternary(state),
        is_pattern(m),
        fits(state, y, x, m),
        completes(full, merged(state, y, x, m)),
    ensures
        completes(full, state),
        neighborhood(full, y, x) == m,
{
    let after = merged(state, y, x, m);
    lemma_merged(state, y, x, m);
    lemma_extends_keeps_window(full, after, y, x);
    assert forall|r: int, c: int| in_grid(state, r, c) && state[r][c] != -1 implies (
    #[trigger] full[r][c]) == state[r][c] by {
        assert(after[r][c] == state[r][c]);
        assert(full[r][c] == after[r][c]);
    }
}

/// Where every window is settled, the state is a predecessor of the target,
/// and the only full grid that agrees with it.
pub proof fn lemma_all_settled(state: Seq<Seq<i8>>, target: Seq<Seq<i8>>)
    requires
        valid_target(target),
        same_shape(state, target),
        forall|y: int, x: int| in_grid(target, y, x) ==> #[trigger] settled(state, target, y, x),
    ensures
        is_predecessor(state, target),
        forall|full: Seq<Seq<i8>>| #[trigger] completes(full, state) ==> full == state,
{
    assert forall|y: int, x: int| in_grid(state, y, x) implies is_bit(#[trigger] state[y][x]) by {
        assert(settled(state, target, y, x));
        assert(neighborhood(state, y, x)[1][1] == state[y][x]);
        assert(is_bit(neighborhood(state, y, x)[1][1]));
    }
    lemma_predecessor_by_windows(state, target);
    assert forall|full: Seq<Seq<i8>>| #[trigger] completes(full, state) implies full == state by {
        assert forall|y: int| 0 <= y < state.len() implies #[trigger] full[y] == state[y] by {
            assert forall|x: int| 0 <= x < state[y].len() implies #[trigger] full[y][x]
                == state[y][x] by {
                assert(is_bit(state[y][x]));
            }
            assert(full[y] =~= state[y]);
        }
        assert(full =~= state);
    }
}

/// The positions before the next position are those before this one, and
/// this one. After the last position every position lies before.
pub proof fn lemma_next_position(height: int, width: int, flow_y: bool, y: int, x: int)
    requires
        0 <= y < height,
        0 <= x < width,
    ensures
        ({
            let next = next_position(height, width, flow_y, y, x);
            &&& (y == height - 1 && x == width - 1) == !(0 <= next.0 < height && 0 <= next.1
                < width)
            &&& forall|qy: int, qx: int|
                0 <= qy < height && 0 <= qx < width ==> (#[trigger] before(
                    flow_y,
                    qy,
                    qx,
                    next.0,
                    next.1,
                ) <==> before(flow_y, qy, qx, y, x) || (qy == y && qx == x))
        }),
{
}

/// Every grid comes no later than itself.
pub proof fn lemma_search_le_reflexive(p: Seq<Seq<i8>>, flow_y: bool, y: int, x: int)
    ensures
        search_le(p, p, flow_y, y, x),
    decreases
        (if flow_y { p[0].len() - x } else { p.len() - y }),
        (if flow_y { p.len() - y } else { p[0].len() - x }),
{
    let height = p.len() as int;
    let width = p[0].len() as int;
    if 0 <= y < height && 0 <= x < width {
        let next = next_position(height, width, flow_y, y, x);
        lemma_search_le_reflexive(p, flow_y, next.0, next.1);
    }
}

/// Two grids of dead and live cells that come no later than each other
/// hold the same cells from `(y, x)` on.
pub proof fn lemma_search_le_antisymmetric(
    p: Seq<Seq<i8>>,
    q: Seq<Seq<i8>>,
    flow_y: bool,
    y: int,
    x: int,
)
    requires
        valid_target(p),
        valid_target(q),
        same_shape(p, q),
        search_le(p, q, flow_y, y, x),
        search_le(q, p, flow_y, y, x),
        in_grid(p, y, x) || (if flow_y {
            x >= p[0].len()
        } else {
            y >= p.len()
        }),
    ensures
        forall|qy: int, qx: int|
            in_grid(p, qy, qx) && !before(flow_y, qy, qx, y, x) ==> (#[trigger] p[qy][qx])
                == q[qy][qx],
    decreases
        (if flow_y { p[0].len() - x } else { p.len() - y }),
        (if flow_y { p.len() - y } else { p[0].len() - x }),
{
    let height = p.len() as int;
    let width = p[0].len() as int;
    assert(q[0].len() == width);
    if 0 <= y < height && 0 <= x < width {
        let next = next_position(height, width, flow_y, y, x);
        lemma_window_of_binary(p, y, x);
        lemma_window_of_binary(q, y, x);
        let a = neighborhood(p, y, x);
        let b = neighborhood(q, y, x);
        assert(pattern_code(a) == pattern_code(b));
        lemma_same_code_same_pattern(a, b);
        assert(a[1][1] == p[y][x] && b[1][1] == q[y][x]);
        lemma_search_le_antisymmetric(p, q, flow_y, next.0, next.1);
        lemma_next_position(height, width, flow_y, y, x);
        assert forall|qy: int, qx: int|
            in_grid(p, qy, qx) && !before(flow_y, qy, qx, y, x) implies (#[trigger] p[qy][qx])
            == q[qy][qx] by {
            if !(qy == y && qx == x) {
                assert(!before(flow_y, qy, qx, next.0, next.1));
            }
        }
    } else {
        assert forall|qy: int, qx: int|
            in_grid(p, qy, qx) && !before(flow_y, qy, qx, y, x) implies (#[trigger] p[qy][qx])
            == q[qy][qx] by {
            assert(p[qy].len() == width);
        }
    }
}

/// A target has at most one first predecessor in each direction of the
/// scan: what a sequential search returns is decided by the target and the
/// direction alone.
pub proof fn lemma_first_predecessor_unique(
    p: Seq<Seq<i8>>,
    q: Seq<Seq<i8>>,
    target: Seq<Seq<i8>>,
    flow_y: bool,
)
    requires
        valid_target(target),
        is_first_predecessor(p, target, flow_y),
        is_first_predecessor(q, target, flow_y),
    ensures
        p == q,
{
    assert(search_le(p, q, flow_y, 0, 0));
    assert(search_le(q, p, flow_y, 0, 0));
    assert(p[0].len() == target[0].len());
    assert(q[0].len() == target[0].len());
    assert(rectangular(p, p[0].len())) by {
        assert forall|y: int| 0 <= y < p.len() implies (#[trigger] p[y]).len() == p[0].len() by {
            assert(target[y].len() == target[0].len());
        }
    }
    assert(rectangular(q, q[0].len())) by {
        assert forall|y: int| 0 <= y < q.len() implies (#[trigger] q[y]).len() == q[0].len() by {
            assert(target[y].len() == target[0].len());
        }
    }
    lemma_search_le_antisymmetric(p, q, flow_y, 0, 0);
    assert forall|y: int| 0 <= y < p.len() implies #[trigger] p[y] == q[y] by {
        assert forall|x: int| 0 <= x < p[y].len() implies #[trigger] p[y][x] == q[y][x] by {
            assert(!before(flow_y, y, x, 0, 0));
        }
        assert(p[y] =~= q[y]);
    }
    assert(p =~= q);
}

/// A target whose cells are all dead has a predecessor: itself.
pub proof fn lemma_all_dead_has_predecessor(target: Seq<Seq<i8>>)
    requires
        forall|y: int, x: int| in_grid(target, y, x) ==> #[trigger] target[y][x] == 0,
    ensures
        is_predecessor(target, target),
        has_predecessor(target),
{
    assert forall|y: int| 0 <= y < target.len() implies #[trigger] step_rows(target)[y]
        == target[y] by {
        assert forall|x: int| 0 <= x < target[y].len() implies #[trigger] step_rows(target)[y][x]
            == target[y][x] by {
            assert(target[y][x] == 0);
            assert(live_neighbors(target, y, x) == 0);
        }
        assert(step_rows(target)[y] =~= target[y]);
    }
    assert(step_rows(target) =~= target);
}

/// A target of one live cell has no predecessor: a single cell has no
/// neighbours, so it is dead in the next generation whatever it holds.
pub proof fn lemma_lone_live_cell_has_no_predecessor(target: Seq<Seq<i8>>)
    requires
        target.len() == 1,
        target[0].len() == 1,
        target[0][0] == 1,
    ensures
        !has_predecessor(target),
{
    assert forall|candidate: Seq<Seq<i8>>| !is_predecessor(candidate, target) by {
        if is_predecessor(candidate, target) {
            assert(candidate[0].len() == target[0].len());
            assert(live_neighbors(candidate, 0, 0) == 0);
            assert(step_rows(candidate)[0][0] == next_cell(candidate[0][0], 0));
        }
    }
}

/// A grid that the search returns and the simulator steps once is the
/// target again.
pub proof fn lemma_round_trip(found: Seq<Seq<i8>>, stepped: Seq<Seq<i8>>, target: Seq<Seq<i8>>)
    requires
        is_predecessor(found, target),
        stepped == step_rows(found),
    ensures
        stepped == target,
{
}

} // verus!
