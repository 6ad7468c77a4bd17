//! Searching with noise: where a target has no predecessor, single cells of
//! it are turned around at random until the result has one.

use vstd::prelude::*;
use rand::rngs::ThreadRng;
use rand::Rng;
use crate::grid::{flip_at, in_grid, is_bit, Grid};
use crate::search::{has_predecessor, is_predecessor, same_shape, valid_target};
use crate::solver::GameOfLifeReverser;

verus! {

/// The generator of random numbers of `rand` that belongs to the thread.
#[verifier::external_type_specification]
#[verifier::external_body]
pub struct ExThreadRng(ThreadRng);

/// `rand::thread_rng` hands out the generator of the thread. Nothing is
/// claimed of it.
pub assume_specification[ rand::thread_rng ]() -> (rng: ThreadRng)
;

/// Calls `rand::Rng::gen_range` with the range `0..bound`.
///
/// Trusted: the result lies in the range. Which number of the range it is
/// is left open. `gen_range` panics on an empty range, which `requires`
/// excludes.
#[verifier::external_body]
fn random_below(rng: &mut ThreadRng, bound: usize) -> (index: usize)
    requires
        bound > 0,
    ensures
        index < bound,
{
    rng.gen_range(0..bound)
}

/// `after` comes from `before` by turning a cell around, `flips` times over
/// (the same cell may be turned more than once).
pub open spec fn reached_by_flips(before: Seq<Seq<i8>>, after: Seq<Seq<i8>>, flips: nat) -> bool
    decreases flips,
{
    if flips == 0 {
        after == before
    } else {
        exists|middle: Seq<Seq<i8>>, y: int, x: int|
            #![trigger flip_at(middle, y, x)]
            reached_by_flips(before, middle, (flips - 1) as nat) && in_grid(middle, y, x) && after
                == flip_at(middle, y, x)
    }
}

/// What a search with noise found.
pub struct Rewound {
    /// The target that was reached: the given one after `flips` cells of it
    /// were turned around.
    pub target: Grid,
    /// A predecessor of that target.
    pub predecessor: Grid,
    /// How many times a cell was turned around.
    pub flips: usize,
}

/// A predecessor of `target_state` or, where it has none, of a target that
/// differs from it in cells chosen at random: as long as the search fails,
/// one more cell is turned around, up to `max_flips` times.
pub fn find_previous_state_with_noise(
    target_state: Grid,
    solve_flow_y: bool,
    max_flips: usize,
) -> (found: Option<Rewound>)
    requires
        valid_target(target_state@),
    ensures
        has_predecessor(target_state@) ==> found is Some,
        match found {
            Some(rewound) => {
                &&& is_predecessor(rewound.predecessor@, rewound.target@)
                &&& valid_target(rewound.target@)
                &&& same_shape(rewound.target@, target_state@)
                &&& rewound.flips <= max_flips
                &&& (rewound.flips == 0) == has_predecessor(target_state@)
                &&& reached_by_flips(target_state@, rewound.target@, rewound.flips as nat)
            },
            None => !has_predecessor(target_state@),
        },
{
    let height = target_state.nrows();
    let width = target_state.ncols();
    let ghost given = target_state@;
    let mut current_target = target_state;
    let mut reverser = GameOfLifeReverser::new(current_target.clone(), solve_flow_y);
    let first = reverser.find_previous_state();
    if let Some(predecessor) = first {
        return Some(Rewound { target: current_target, predecessor, flips: 0 });
    }
    let mut rng = rand::thread_rng();
    let mut flips: usize = 0;
    while flips < max_flips
        invariant
            flips <= max_flips,
            given == target_state@,
            !has_predecessor(given),
            valid_target(given),
            valid_target(current_target@),
            same_shape(current_target@, given),
            reached_by_flips(given, current_target@, flips as nat),
            height == given.len(),
            width == given[0].len(),
            current_target.width() == width,
        decreases max_flips - flips,
    {
        let rand_x = random_below(&mut rng, width);
        let rand_y = random_below(&mut rng, height);
        let ghost before = current_target@;
        assert(before[rand_y as int].len() == given[rand_y as int].len());
        current_target.flip(rand_y, rand_x);
        flips += 1;
        proof {
            let after = current_target@;
            assert(after == flip_at(before, rand_y as int, rand_x as int));
            assert forall|y: int| 0 <= y < after.len() implies (#[trigger] after[y]).len()
                == given[y].len() by {
                assert(before[y].len() == given[y].len());
            }
            assert forall|y: int, x: int| in_grid(after, y, x) implies is_bit(
                #[trigger] after[y][x],
            ) by {
                if !(y == rand_y && x == rand_x) {
                    assert(is_bit(before[y][x]));
                }
            }
        }
        let mut reverser = GameOfLifeReverser::new(current_target.clone(), solve_flow_y);
        let next = reverser.find_previous_state();
        if let Some(predecessor) = next {
            return Some(Rewound { target: current_target, predecessor, flips });
        }
    }
    None
}

} // verus!
