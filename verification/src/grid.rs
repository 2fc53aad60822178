//! The grid, its regions and its solvers.

use vstd::arithmetic::div_mod::{lemma_fundamental_div_mod, lemma_fundamental_div_mod_converse};
use vstd::prelude::*;
use crate::cell::{game_side, lemma_side_bound, side, Cell, CellModel, CellNumber, CellState};

mod back_trace;
mod deduction;
mod exhaustive;
mod filters;
mod iterator;
mod meaning;
mod position;
mod regions;
mod render;
mod rules;
mod verification;

pub use back_trace::{
    cursor_at, cursor_fits, cursor_index, failure_text, left_to_try, lemma_cursor_forward,
    lemma_move_index, lemma_numeral_bound, lemma_numeral_less, lemma_numeral_same,
    lemma_search_deterministic, lemma_search_passes_fixed, lemma_search_progress,
    lemma_search_stays, lemma_search_stops_at_conflict, lemma_search_weight_bound, next_try,
    numeral, progress, search_run, search_start, search_step, search_weight, solve_view, Search,
    SolveError, SolveFailure,
};
pub use deduction::{
    deduce_cells, deduce_pass, deduce_passes, deduction_outcome, empties, is_last_pass,
    lemma_deduction_deterministic, lemma_deduction_finds_the_solution, lemma_deduction_keeps_ready,
    lemma_deduction_keeps_solution, lemma_empties_bound, lemma_empties_filled, lemma_forced,
    lemma_only_deduced_follows, lemma_pass_keeps_ready, lemma_pass_keeps_solution, lemma_pass_stops,
    lemma_passes_stay, only_deduced, Pass,
};
pub use exhaustive::{
    agrees_before, blocked, earlier, guess_fits, lemma_agrees_frame, lemma_blocked_frame,
    lemma_course_candidates, lemma_course_consistent, lemma_course_values, lemma_next_cell,
    lemma_others_not_behind, lemma_others_settled, lemma_places, lemma_run,
    lemma_search_finds_the_solution, lemma_search_sound_and_complete, lemma_solution_fits,
    lemma_start_on_course, lemma_step, lemma_step_empty, lemma_step_failure, lemma_step_fixed,
    lemma_step_guess, lemma_step_success, not_behind, not_passed, on_course, settled, visited,
};
pub use filters::{
    lemma_filter_all, lemma_filter_members, lemma_filter_no_duplicates, lemma_filter_nothing,
    lemma_two_members,
};
pub use iterator::{
    column_positions, cursor_position, lemma_block, move_cursor, row_positions, square_offset,
    square_positions, BackTracePositionTracker, Column, Cursor, Direction, Row, Square, SudokuIter,
};
pub use meaning::{
    lemma_candidates, lemma_clash_of_hints, lemma_classify_given, lemma_complete_region_filled,
    lemma_filled_grid_verifies, lemma_first_conflict, lemma_free_values, lemma_holders,
    lemma_ready_in_range, lemma_region_complete, lemma_region_conflict, lemma_regions_complete,
    lemma_searchable, lemma_verification_finds_clashes, lemma_verified_grid_is_filled,
    lemma_verify_regions,
};
pub use position::{position_text, CellCoordinate, CellPosition};
pub use regions::{
    lemma_all_regions, lemma_column, lemma_regions, lemma_row, lemma_square, lemma_square_of,
    proper_region, region_of,
};
pub use render::{
    bar, basic_separator, cell_text, colour_mark, end_mark, frame, grid_text, grid_text_upto,
    lemma_digits_bound, lemma_digits_len, line_upto, number_width, plain_numbers, repeated,
    separator, separator_upto, shown_as, texts, Frame,
};
pub use rules::{
    all_ready, consistent, filled, given_only, hints_only, in_range, is_solution, keeps_fixed,
    only_solution, peers, ready, searchable, unsolvable, value_at,
};
pub use verification::{
    all_columns, all_rows, all_squares, both, candidates, classify, completeness, conflict_order,
    conflict_text, entries, entry_views, first_conflict, free_values, has_strength, holders, holds,
    is_not, lemma_complete_grid, lemma_complete_regions, lemma_conflict_order_len,
    lemma_verification_repeatable, lemma_verify_regions_stops, outcome_view, position_view,
    possibility_view, region_complete, regions_of, solved, sorted, strength, verify_grid,
    verify_region, verify_regions, without, Conflict, Entry, Strength, VerificationError,
    VerificationResult,
};

verus! {

/// What a grid is: the states of its cells, `grid[x][y]` for the cell at `(x, y)`.
pub type GridModel = Seq<Seq<CellModel>>;

/// `grid` has `side` lines of `side` cells each.
pub open spec fn well_shaped(grid: GridModel, side: int) -> bool {
    &&& grid.len() == side
    &&& forall|x: int| 0 <= x < side ==> (#[trigger] grid[x]).len() == side
}

/// `p` is a position of a grid of side `side`.
pub open spec fn on_grid(p: (int, int), side: int) -> bool {
    0 <= p.0 < side && 0 <= p.1 < side
}

/// The state that the cell at `p` has in `grid`.
pub open spec fn state_at(grid: GridModel, p: (int, int)) -> CellModel {
    grid[p.0][p.1]
}

/// `grid` with the state of the cell at `p` replaced by `state`.
pub open spec fn with_state(grid: GridModel, p: (int, int), state: CellModel) -> GridModel {
    grid.update(p.0, grid[p.0].update(p.1, state))
}

/// The position of the cell that comes `k`-th when a grid of side `side` is
/// read line by line, counting from `0`.
pub open spec fn scan_position(k: int, side: int) -> (int, int) {
    (k % side, k / side)
}

/// The place of the position `p` when a grid of side `side` is read line by
/// line, counting from `0`.
pub open spec fn scan_index(p: (int, int), side: int) -> int {
    p.1 * side + p.0
}

/// Reading line by line visits every position of the grid once.
pub proof fn lemma_scan(side: int, p: (int, int))
    requires
        on_grid(p, side),
    ensures
        0 <= scan_index(p, side) < side * side,
        scan_position(scan_index(p, side), side) == p,
{
    lemma_fundamental_div_mod_converse(p.1 * side + p.0, side, p.1, p.0);
    assert(0 <= p.1 * side && p.1 * side + side <= side * side) by (nonlinear_arith)
        requires
            0 <= p.1 < side,
    ;
}

/// Every place of the reading is a position of the grid.
pub proof fn lemma_scan_position(side: int, k: int)
    requires
        0 < side,
        0 <= k < side * side,
    ensures
        on_grid(scan_position(k, side), side),
        scan_index(scan_position(k, side), side) == k,
{
    lemma_fundamental_div_mod(k, side);
    let q = k / side;
    let r = k % side;
    assert(side * q == q * side) by (nonlinear_arith);
    assert(0 <= q < side) by (nonlinear_arith)
        requires
            k == q * side + r,
            0 <= r < side,
            0 <= k < side * side,
    ;
}

/// What changing one cell does to the states of a grid.
pub proof fn lemma_with_state(grid: GridModel, side: int, p: (int, int), state: CellModel)
    requires
        well_shaped(grid, side),
        on_grid(p, side),
    ensures
        well_shaped(with_state(grid, p, state), side),
        state_at(with_state(grid, p, state), p) == state,
        forall|q: (int, int)|
            on_grid(q, side) && q != p ==> #[trigger] state_at(with_state(grid, p, state), q)
                == state_at(grid, q),
{
    let changed = with_state(grid, p, state);
    assert forall|x: int| 0 <= x < side implies (#[trigger] changed[x]).len() == side by {
        if x != p.0 {
            assert(changed[x] == grid[x]);
        }
    }
}

/// The states of the cells of `grid`, those with the first coordinate `0`
/// first, each group in the order of the second coordinate.
pub open spec fn cell_by_cell(grid: GridModel, side: int) -> Seq<CellModel> {
    Seq::new((side * side) as nat, |k: int| grid[k / side][k % side])
}

/// The state that a cell has in a new grid made from the number `input`:
/// given where `input` is a number of the grid, empty otherwise.
pub open spec fn initial_state(input: usize, side: int) -> CellModel {
    if 1 <= input <= side {
        CellModel::Given(input as int)
    } else {
        CellModel::Empty(None)
    }
}

/// A grid of cells: `side` lines of `side` cells, where `side` is the square
/// of the block size.
#[derive(Debug, PartialEq, Eq, PartialOrd, Ord, Hash)]
pub struct Sudoku<const SQUARE_SIZE: u8> {
    data: Vec<Cell<SQUARE_SIZE>>,
}

impl<const SQUARE_SIZE: u8> View for Sudoku<SQUARE_SIZE> {
    type V = GridModel;

    closed spec fn view(&self) -> GridModel {
        Seq::new(
            side(SQUARE_SIZE) as nat,
            |x: int|
                Seq::new(side(SQUARE_SIZE) as nat, |y: int| self.data@[x * side(SQUARE_SIZE) + y]@),
        )
    }
}

/// Two different positions of a grid lie at different places of its storage.
proof fn lemma_place(side: int, x: int, y: int)
    requires
        0 <= x < side,
        0 <= y < side,
    ensures
        0 <= x * side + y < side * side,
        forall|a: int, b: int|
            0 <= a < side && 0 <= b < side && (a != x || b != y) ==> #[trigger] (a * side + b) != x
                * side + y,
{
    assert(0 <= x * side && x * side + side <= side * side) by (nonlinear_arith)
        requires
            0 <= x < side,
    ;
    assert forall|a: int, b: int|
        0 <= a < side && 0 <= b < side && (a != x || b != y) implies #[trigger] (a * side + b) != x
        * side + y by {
        if a < x {
            assert(a * side + side <= x * side) by (nonlinear_arith)
                requires
                    a < x,
                    0 < side,
            ;
        } else if a > x {
            assert(x * side + side <= a * side) by (nonlinear_arith)
                requires
                    x < a,
                    0 < side,
            ;
        }
    }
}

impl<const SQUARE_SIZE: u8> Clone for Sudoku<SQUARE_SIZE> {
    fn clone(&self) -> (r: Self)
        ensures
            r@ == self@,
    {
        proof {
            use_type_invariant(self);
        }
        let data = self.data.clone();
        let r = Self { data };
        proof {
            let n = side(SQUARE_SIZE);
            assert forall|x: int| 0 <= x < n implies #[trigger] r@[x] == self@[x] by {
                assert forall|y: int| 0 <= y < n implies #[trigger] r@[x][y] == self@[x][y] by {
                    lemma_place(n, x, y);
                    assert(cloned(self.data@[x * n + y], r.data@[x * n + y]));
                }
                assert(r@[x] =~= self@[x]);
            }
            assert(r@ =~= self@);
        }
        r
    }
}

impl<const SQUARE_SIZE: u8> Sudoku<SQUARE_SIZE> {
    #[verifier::type_invariant]
    spec fn sized(self) -> bool {
        self.data@.len() == side(SQUARE_SIZE) * side(SQUARE_SIZE)
    }

    /// Every grid has the shape that its block size gives.
    pub proof fn lemma_shape(self)
        ensures
            well_shaped(self@, side(SQUARE_SIZE)),
    {
    }

    /// The grid made from `input`: the cell at `(x, y)` is given the number
    /// `input[x][y]` where that is a number of the grid, and is empty where it
    /// is `0` or too large.
    pub fn new<const SIDE: usize>(input: [[usize; SIDE]; SIDE]) -> (r: Self)
        requires
            SIDE == side(SQUARE_SIZE),
        ensures
            well_shaped(r@, side(SQUARE_SIZE)),
            forall|x: int, y: int|
                0 <= x < SIDE && 0 <= y < SIDE ==> #[trigger] r@[x][y] == initial_state(
                    input@[x]@[y],
                    side(SQUARE_SIZE),
                ),
            SQUARE_SIZE > 0 ==> all_ready(r@, SQUARE_SIZE as int),
            hints_only(r@, side(SQUARE_SIZE)),
    {
        proof {
            lemma_side_bound(SQUARE_SIZE);
        }
        let mut data: Vec<Cell<SQUARE_SIZE>> = Vec::new();
        let mut x: usize = 0;
        while x < SIDE
            invariant
                SIDE == side(SQUARE_SIZE),
                SIDE <= 65025,
                x <= SIDE,
                data@.len() == x * SIDE,
                forall|a: int, b: int|
                    0 <= a < x && 0 <= b < SIDE ==> (#[trigger] data@[a * SIDE + b])@
                        == initial_state(input@[a]@[b], side(SQUARE_SIZE)),
            decreases SIDE - x,
        {
            let mut y: usize = 0;
            while y < SIDE
                invariant
                    SIDE == side(SQUARE_SIZE),
                    SIDE <= 65025,
                    x < SIDE,
                    y <= SIDE,
                    data@.len() == x * SIDE + y,
                    forall|a: int, b: int|
                        0 <= a < x && 0 <= b < SIDE ==> (#[trigger] data@[a * SIDE + b])@
                            == initial_state(input@[a]@[b], side(SQUARE_SIZE)),
                    forall|b: int|
                        0 <= b < y ==> (#[trigger] data@[x * SIDE + b])@ == initial_state(
                            input@[x as int]@[b],
                            side(SQUARE_SIZE),
                        ),
                decreases SIDE - y,
            {
                let ghost before = data@;
                let cell = Cell::new(CellState::new(CellNumber::new(input[x][y])));
                data.push(cell);
                proof {
                    lemma_place(SIDE as int, x as int, y as int);
                    assert forall|a: int, b: int| 0 <= a < x && 0 <= b < SIDE implies (
                    #[trigger] data@[a * SIDE + b])@ == initial_state(
                        input@[a]@[b],
                        side(SQUARE_SIZE),
                    ) by {
                        lemma_place(SIDE as int, a, b);
                        assert(a * SIDE + b < x * SIDE + y) by (nonlinear_arith)
                            requires
                                0 <= a < x,
                                0 <= b < SIDE,
                                0 <= y,
                        ;
                        assert(data@[a * SIDE + b] == before[a * SIDE + b]);
                    }
                    assert forall|b: int| 0 <= b < y + 1 implies (#[trigger] data@[x * SIDE + b])@
                        == initial_state(input@[x as int]@[b], side(SQUARE_SIZE)) by {
                        if b < y {
                            assert(data@[x * SIDE + b] == before[x * SIDE + b]);
                        }
                    }
                }
                y = y + 1;
            }
            proof {
                assert((x + 1) * SIDE == x * SIDE + SIDE) by (nonlinear_arith);
            }
            x = x + 1;
        }
        let r = Self { data };
        proof {
            assert forall|x: int, y: int| 0 <= x < SIDE && 0 <= y < SIDE implies #[trigger] r@[x][y]
                == initial_state(input@[x]@[y], side(SQUARE_SIZE)) by {
                assert(r@[x][y] == r.data@[x * SIDE + y]@);
            }
            assert forall|p: (int, int)| on_grid(p, side(SQUARE_SIZE)) implies ready(
                #[trigger] state_at(r@, p),
                side(SQUARE_SIZE),
            ) by {
                assert(r@[p.0][p.1] == initial_state(input@[p.0]@[p.1], side(SQUARE_SIZE)));
            }
            assert forall|p: (int, int)|
                on_grid(p, side(SQUARE_SIZE)) && (#[trigger] value_at(r@, p)) is Some implies state_at(
                r@,
                p,
            ) is Given by {
                assert(r@[p.0][p.1] == initial_state(input@[p.0]@[p.1], side(SQUARE_SIZE)));
            }
        }
        r
    }

    fn place(position: CellPosition<SQUARE_SIZE>) -> (r: usize)
        ensures
            r == position@.0 * side(SQUARE_SIZE) + position@.1,
            r < side(SQUARE_SIZE) * side(SQUARE_SIZE),
            on_grid(position@, side(SQUARE_SIZE)),
    {
        let x = position.x_usize();
        let y = position.y_usize();
        proof {
            lemma_side_bound(SQUARE_SIZE);
            lemma_place(side(SQUARE_SIZE), position@.0, position@.1);
            assert(side(SQUARE_SIZE) * side(SQUARE_SIZE) <= 65025 * 65025) by (nonlinear_arith)
                requires
                    0 <= side(SQUARE_SIZE) <= 65025,
            ;
        }
        x * game_side(SQUARE_SIZE) + y
    }

    /// The cell at `index`.
    pub fn get_cell(&self, index: CellPosition<SQUARE_SIZE>) -> (r: &Cell<SQUARE_SIZE>)
        ensures
            on_grid(index@, side(SQUARE_SIZE)),
            r@ == state_at(self@, index@),
    {
        proof {
            use_type_invariant(self);
        }
        let place = Self::place(index);
        &self.data[place]
    }

    /// The cell at `index`, to be changed. No other cell changes with it.
    pub fn get_cell_mut(&mut self, index: CellPosition<SQUARE_SIZE>) -> (r: &mut Cell<SQUARE_SIZE>)
        ensures
            on_grid(index@, side(SQUARE_SIZE)),
            r@ == state_at(old(self)@, index@),
            final(self)@ == with_state(old(self)@, index@, final(r)@),
    {
        proof {
            use_type_invariant(&*self);
        }
        let place = Self::place(index);
        let ghost before = self.data@;
        let r = &mut self.data[place];
        proof {
            let n = side(SQUARE_SIZE);
            let after = before.update(place as int, *final(r));
            let was = Seq::new(n as nat, |x: int| Seq::new(n as nat, |y: int| before[x * n + y]@));
            let now = Seq::new(n as nat, |x: int| Seq::new(n as nat, |y: int| after[x * n + y]@));
            lemma_place(n, index@.0, index@.1);
            assert forall|x: int| 0 <= x < n implies #[trigger] now[x] == with_state(
                was,
                index@,
                final(r)@,
            )[x] by {
                assert forall|y: int| 0 <= y < n implies #[trigger] now[x][y] == with_state(
                    was,
                    index@,
                    final(r)@,
                )[x][y] by {
                    lemma_place(n, x, y);
                    if x != index@.0 || y != index@.1 {
                        assert(x * n + y != index@.0 * n + index@.1);
                    }
                }
                assert(now[x] =~= with_state(was, index@, final(r)@)[x]);
            }
            assert(now =~= with_state(was, index@, final(r)@));
        }
        r
    }

    /// All cells: those with the first coordinate `0` first, each group in
    /// the order of the second coordinate.
    pub fn iter(&self) -> (r: core::slice::Iter<'_, Cell<SQUARE_SIZE>>)
        ensures
            vstd::std_specs::iter::IteratorSpec::remaining(&r).map_values(
                |cell: &Cell<SQUARE_SIZE>| cell@,
            ) == cell_by_cell(self@, side(SQUARE_SIZE)),
    {
        let cells = self.data.as_slice();
        proof {
            use_type_invariant(self);
            vstd::std_specs::slice::axiom_spec_slice_iter(cells);
            let n = side(SQUARE_SIZE);
            let listed = cells@.as_ref().map_values(|cell: &Cell<SQUARE_SIZE>| cell@);
            assert forall|k: int| 0 <= k < n * n implies listed[k] == #[trigger] cell_by_cell(
                self@,
                n,
            )[k] by {
                lemma_side_bound(SQUARE_SIZE);
                assert(0 < n) by (nonlinear_arith)
                    requires
                        0 <= k < n * n,
                        0 <= n,
                ;
                lemma_scan_position(n, k);
                lemma_place(n, k / n, k % n);
            }
            assert(listed =~= cell_by_cell(self@, n));
        }
        cells.iter()
    }
}

impl<const SQUARE_SIZE: u8> vstd::std_specs::core::IndexSpecImpl<CellPosition<SQUARE_SIZE>> for Sudoku<SQUARE_SIZE> {
    open spec fn index_req(&self, index: &CellPosition<SQUARE_SIZE>) -> bool {
        true
    }
}

impl<const SQUARE_SIZE: u8> std::ops::Index<CellPosition<SQUARE_SIZE>> for Sudoku<SQUARE_SIZE> {
    type Output = Cell<SQUARE_SIZE>;

    /// The cell at `index`.
    fn index(&self, index: CellPosition<SQUARE_SIZE>) -> (r: &Cell<SQUARE_SIZE>)
        ensures
            r@ == state_at(self@, index@),
    {
        self.get_cell(index)
    }
}

impl<const SQUARE_SIZE: u8> std::ops::IndexMut<CellPosition<SQUARE_SIZE>> for Sudoku<SQUARE_SIZE> {
    /// The cell at `index`, to be changed.
    fn index_mut(&mut self, index: CellPosition<SQUARE_SIZE>) -> (r: &mut Cell<SQUARE_SIZE>)
        ensures
            r@ == state_at(old(self)@, index@),
            final(self)@ == with_state(old(self)@, index@, final(r)@),
    {
        self.get_cell_mut(index)
    }
}

} // verus!
