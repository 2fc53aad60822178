//! Solving by search: numbers are tried cell by cell, and taken back where
//! they lead nowhere.

use vstd::prelude::*;
use vstd::string::StringExecFns;
use crate::cell::{
    lemma_next_allowed, lemma_side_bound, next_allowed, side, Cell, CellGuess, CellModel, CellState,
    GuessModel,
};
use crate::grid::{
    candidates, conflict_text, cursor_position, is_solution, keeps_fixed,
    lemma_filled_grid_verifies, lemma_scan, lemma_scan_position, lemma_search_sound_and_complete,
    lemma_with_state, move_cursor, on_grid, scan_index, scan_position, searchable, state_at,
    unsolvable, verify_grid, well_shaped, with_state, BackTracePositionTracker, Conflict, Cursor,
    Direction, GridModel, Sudoku, VerificationError, VerificationResult,
};

verus! {

/// Why a search found no solution.
pub enum SolveFailure {
    /// Two cells of one region hold the same number.
    Conflict(Conflict),
    /// Every number was tried in every cell, in vain.
    ImpossibleConfiguration,
}

/// Why a search found no solution.
#[derive(Debug, Clone, Copy, PartialEq, Eq, PartialOrd, Ord, Hash)]
#[non_exhaustive]
pub enum SolveError<const SQUARE_SIZE: u8> {
    /// Two cells of one region hold the same number.
    VerificationError(VerificationError<SQUARE_SIZE>),
    /// Every number was tried in every cell, in vain: there is no solution.
    ImpossibleConfiguration,
}

impl<const SQUARE_SIZE: u8> View for SolveError<SQUARE_SIZE> {
    type V = SolveFailure;

    open spec fn view(&self) -> SolveFailure {
        match self {
            SolveError::VerificationError(e) => SolveFailure::Conflict(e@),
            SolveError::ImpossibleConfiguration => SolveFailure::ImpossibleConfiguration,
        }
    }
}

/// A failure as text.
pub open spec fn failure_text(failure: SolveFailure) -> Seq<char> {
    match failure {
        SolveFailure::Conflict(conflict) => conflict_text(conflict),
        SolveFailure::ImpossibleConfiguration => "the given configuration has no solution"@,
    }
}

impl<const SQUARE_SIZE: u8> SolveError<SQUARE_SIZE> {
    /// The message of this error.
    pub fn to_string(&self) -> (text: String)
        ensures
            text@ == failure_text(self@),
    {
        match self {
            SolveError::VerificationError(error) => error.to_string(),
            SolveError::ImpossibleConfiguration => String::from_str(
                "the given configuration has no solution",
            ),
        }
    }

    /// The conflict behind this error, if it has one.
    pub fn source(&self) -> (r: Option<VerificationError<SQUARE_SIZE>>)
        ensures
            r == match *self {
                SolveError::VerificationError(e) => Some(e),
                SolveError::ImpossibleConfiguration => None,
            },
    {
        match self {
            SolveError::VerificationError(error) => Some(*error),
            SolveError::ImpossibleConfiguration => None,
        }
    }
}

impl<const SQUARE_SIZE: u8> vstd::std_specs::convert::FromSpecImpl<VerificationError<SQUARE_SIZE>> for SolveError<SQUARE_SIZE> {
    open spec fn obeys_from_spec() -> bool {
        true
    }

    open spec fn from_spec(error: VerificationError<SQUARE_SIZE>) -> Self {
        SolveError::VerificationError(error)
    }
}

impl<const SQUARE_SIZE: u8> From<VerificationError<SQUARE_SIZE>> for SolveError<SQUARE_SIZE> {
    fn from(error: VerificationError<SQUARE_SIZE>) -> (r: Self) {
        SolveError::VerificationError(error)
    }
}

/// What a solver returned, over plain positions.
pub open spec fn solve_view<const SQUARE_SIZE: u8>(
    r: Result<(), SolveError<SQUARE_SIZE>>,
) -> Result<
    (),
    SolveFailure,
> {
    match r {
        Ok(()) => Ok(()),
        Err(e) => Err(e@),
    }
}

/// A search on its way.
pub struct Search {
    /// The states of the cells.
    pub grid: GridModel,
    /// Where the cursor stands.
    pub cursor: Cursor,
    /// Where the cursor goes next.
    pub direction: Direction,
    /// How the search has ended, if it has.
    pub outcome: Option<Result<(), SolveFailure>>,
}

/// The search at its beginning: the cursor stands before the first cell and
/// goes forward.
pub open spec fn search_start(grid: GridModel) -> Search {
    Search { grid, cursor: Cursor::AtStart, direction: Direction::Forward, outcome: None }
}

/// The number that a guess tries after the one it is trying.
pub open spec fn next_try(guess: GuessModel) -> Option<int> {
    match guess.number {
        Some(tried) => next_allowed(guess.possibility, tried),
        None => None,
    }
}

/// One step of the search. The cursor moves by one cell in its direction.
/// Where it leaves the grid, the search ends: with success after the last
/// cell, with failure before the first. On a given or solved cell it does
/// nothing. In an empty cell it begins a guess with the smallest number that
/// the cell can take and goes forward; where the cell can take none it goes
/// backward. In a cell with a guess it tries the next larger number of the
/// guess and goes forward; where none is left it empties the cell and goes
/// backward. A conflict met while it asks what a cell can take ends the
/// search.
pub open spec fn search_step(s: Search, block: int) -> Search {
    let cursor = move_cursor(s.cursor, s.direction, block * block);
    match cursor_position(cursor) {
        None => Search {
            cursor,
            outcome: Some(
                match s.direction {
                    Direction::Forward => Ok(()),
                    Direction::Backward => Err(SolveFailure::ImpossibleConfiguration),
                },
            ),
            ..s
        },
        Some(p) => match state_at(s.grid, p) {
            CellModel::Empty(_) => match candidates(s.grid, p, block) {
                Err(conflict) => Search {
                    cursor,
                    outcome: Some(Err(SolveFailure::Conflict(conflict))),
                    ..s
                },
                Ok(possibility) => match next_allowed(possibility, 0) {
                    Some(v) => Search {
                        grid: with_state(
                            s.grid,
                            p,
                            CellModel::Guess(GuessModel { number: Some(v), possibility }),
                        ),
                        cursor,
                        direction: Direction::Forward,
                        outcome: None,
                    },
                    None => Search { cursor, direction: Direction::Backward, ..s },
                },
            },
            CellModel::Guess(guess) => match next_try(guess) {
                Some(v) => Search {
                    grid: with_state(
                        s.grid,
                        p,
                        CellModel::Guess(
                            GuessModel { number: Some(v), possibility: guess.possibility },
                        ),
                    ),
                    cursor,
                    direction: Direction::Forward,
                    outcome: None,
                },
                None => Search {
                    grid: with_state(s.grid, p, CellModel::Empty(None)),
                    cursor,
                    direction: Direction::Backward,
                    outcome: None,
                },
            },
            _ => Search { cursor, ..s },
        },
    }
}

/// The search after `n` steps; once it has ended it stays as it is.
pub open spec fn search_run(s: Search, n: nat, block: int) -> Search
    decreases n,
{
    if n == 0 {
        s
    } else {
        let before = search_run(s, (n - 1) as nat, block);
        if before.outcome is Some {
            before
        } else {
            search_step(before, block)
        }
    }
}

/// A search that has ended stays as it is.
pub proof fn lemma_search_stays(s: Search, n: nat, m: nat, block: int)
    requires
        search_run(s, n, block).outcome is Some,
        n <= m,
    ensures
        search_run(s, m, block) == search_run(s, n, block),
    decreases m,
{
    if n < m {
        lemma_search_stays(s, n, (m - 1) as nat, block);
    }
}

/// The search is a function of the grid: however many steps one lets it run
/// beyond its end, it has ended in the same way, on the same grid.
pub proof fn lemma_search_deterministic(grid: GridModel, n: nat, m: nat, block: int)
    requires
        search_run(search_start(grid), n, block).outcome is Some,
        search_run(search_start(grid), m, block).outcome is Some,
    ensures
        search_run(search_start(grid), n, block) == search_run(search_start(grid), m, block),
{
    if n <= m {
        lemma_search_stays(search_start(grid), n, m, block);
    } else {
        lemma_search_stays(search_start(grid), m, n, block);
    }
}

/// The number written with the first `k` digits of `digits` in base `base`.
pub open spec fn numeral(digits: spec_fn(int) -> int, k: int, base: int) -> int
    decreases k,
{
    if k <= 0 {
        0
    } else {
        numeral(digits, k - 1, base) * base + digits(k - 1)
    }
}

/// Numerals with the same digits are the same.
pub proof fn lemma_numeral_same(a: spec_fn(int) -> int, b: spec_fn(int) -> int, k: int, base: int)
    requires
        forall|i: int| 0 <= i < k ==> #[trigger] a(i) == b(i),
    ensures
        numeral(a, k, base) == numeral(b, k, base),
    decreases k,
{
    if k > 0 {
        lemma_numeral_same(a, b, k - 1, base);
    }
}

/// A numeral without negative digits is not negative.
pub proof fn lemma_numeral_bound(a: spec_fn(int) -> int, k: int, base: int)
    requires
        0 < base,
        forall|i: int| 0 <= i < k ==> 0 <= #[trigger] a(i),
    ensures
        0 <= numeral(a, k, base),
    decreases k,
{
    if k > 0 {
        lemma_numeral_bound(a, k - 1, base);
        assert(0 <= numeral(a, k - 1, base) * base) by (nonlinear_arith)
            requires
                0 <= numeral(a, k - 1, base),
                0 < base,
        ;
    }
}

/// Of two numerals that agree before the digit `j`, the one with the smaller
/// digit `j` is the smaller.
pub proof fn lemma_numeral_less(
    a: spec_fn(int) -> int,
    b: spec_fn(int) -> int,
    j: int,
    k: int,
    base: int,
)
    requires
        0 <= j < k,
        0 < base,
        forall|i: int| 0 <= i < j ==> #[trigger] a(i) == b(i),
        a(j) < b(j),
        forall|i: int| j < i < k ==> #[trigger] a(i) < base,
        forall|i: int| j < i < k ==> 0 <= #[trigger] b(i),
    ensures
        numeral(a, k, base) < numeral(b, k, base),
    decreases k,
{
    if k - 1 == j {
        lemma_numeral_same(a, b, j, base);
    } else {
        lemma_numeral_less(a, b, j, k - 1, base);
        let x = numeral(a, k - 1, base);
        let y = numeral(b, k - 1, base);
        assert(a(k - 1) < base && 0 <= b(k - 1));
        assert(x * base + base <= y * base) by (nonlinear_arith)
            requires
                x < y,
                0 < base,
        ;
    }
}

/// The place of the cursor when the cells are counted line by line: `-1`
/// before the first cell, the number of cells behind the last.
pub open spec fn cursor_index(cursor: Cursor, side: int) -> int {
    match cursor {
        Cursor::AtStart => -1,
        Cursor::AtCell(x, y) => y * side + x,
        Cursor::AtEnd => side * side,
    }
}

/// How far a cell in state `state` has come with its numbers.
pub open spec fn progress(state: CellModel, side: int) -> int {
    match state {
        CellModel::Guess(guess) => match guess.number {
            Some(n) => if 1 <= n <= side {
                n
            } else {
                0
            },
            None => side + 1,
        },
        _ => 0,
    }
}

/// What is left to try in the cells of a search, cell by cell: a cell that
/// the cursor has gone back over has nothing left.
pub open spec fn left_to_try(
    grid: GridModel,
    cursor: Cursor,
    direction: Direction,
    side: int,
) -> spec_fn(
    int,
) -> int {
    |k: int|
        if direction == Direction::Backward && k >= cursor_index(cursor, side) {
            0
        } else {
            side + 2 - progress(state_at(grid, scan_position(k, side)), side)
        }
}

/// What is left to try in a search, as one number: it goes down with every
/// step but those that pass forward over a given or solved cell.
pub open spec fn search_weight(
    grid: GridModel,
    cursor: Cursor,
    direction: Direction,
    side: int,
) -> int {
    numeral(left_to_try(grid, cursor, direction, side), side * side, side + 3)
}

/// A cursor is on the grid or just outside it.
pub open spec fn cursor_fits(cursor: Cursor, side: int) -> bool {
    cursor matches Cursor::AtCell(x, y) ==> on_grid((x, y), side)
}

/// A move takes the cursor one place on, and keeps it where it is at the
/// end that it has reached.
pub proof fn lemma_move_index(cursor: Cursor, d: Direction, side: int)
    requires
        0 <= side,
        cursor_fits(cursor, side),
    ensures
        cursor_fits(move_cursor(cursor, d, side), side),
        cursor_index(move_cursor(cursor, d, side), side) == match d {
            Direction::Forward => if cursor is AtEnd {
                side * side
            } else {
                cursor_index(cursor, side) + 1
            },
            Direction::Backward => if cursor is AtStart {
                -1
            } else {
                cursor_index(cursor, side) - 1
            },
        },
        cursor_position(move_cursor(cursor, d, side)) matches Some(p) ==> scan_index(p, side)
            == cursor_index(move_cursor(cursor, d, side), side),
{
    let moved = move_cursor(cursor, d, side);
    assert((side - 1) * side == side * side - side) by (nonlinear_arith);
    assert(0 * side == 0) by (nonlinear_arith);
    match cursor {
        Cursor::AtCell(x, y) => {
            assert((y + 1) * side == y * side + side) by (nonlinear_arith);
            assert((y - 1) * side == y * side - side) by (nonlinear_arith);
            match d {
                Direction::Forward => {
                    if x + 1 < side {
                        assert(moved == Cursor::AtCell(x + 1, y));
                    } else if y + 1 < side {
                        assert(moved == Cursor::AtCell(0, y + 1));
                    } else {
                        assert(moved == Cursor::AtEnd);
                        assert(y == side - 1 && x == side - 1);
                    }
                },
                Direction::Backward => {
                    if x > 0 {
                        assert(moved == Cursor::AtCell(x - 1, y));
                    } else if y > 0 {
                        assert(moved == Cursor::AtCell(side - 1, y - 1));
                    } else {
                        assert(moved == Cursor::AtStart);
                    }
                },
            }
        },
        Cursor::AtStart => {},
        Cursor::AtEnd => {},
    }
}

/// What is left to try in a search never falls below zero.
pub proof fn lemma_search_weight_bound(
    grid: GridModel,
    cursor: Cursor,
    direction: Direction,
    side: int,
)
    requires
        0 <= side,
    ensures
        0 <= search_weight(grid, cursor, direction, side),
{
    lemma_numeral_bound(left_to_try(grid, cursor, direction, side), side * side, side + 3);
}

/// A step of the search onto the cell at `p` leaves less to try, unless it
/// passes forward over a cell that it does not change: where it turns
/// backward, or brings the cell further with its numbers.
pub proof fn lemma_search_progress(
    grid: GridModel,
    cursor: Cursor,
    direction: Direction,
    after: GridModel,
    turned: Direction,
    p: (int, int),
    side: int,
)
    requires
        well_shaped(grid, side),
        cursor_fits(cursor, side),
        cursor_position(move_cursor(cursor, direction, side)) == Some(p),
        after == grid || after == with_state(grid, p, state_at(after, p)),
        turned == Direction::Backward || progress(state_at(grid, p), side) < progress(
            state_at(after, p),
            side,
        ) || (after == grid && turned == direction),
    ensures
        search_weight(after, move_cursor(cursor, direction, side), turned, side) < search_weight(
            grid,
            cursor,
            direction,
            side,
        ) || (after == grid && turned == Direction::Forward && direction == Direction::Forward
            && search_weight(after, move_cursor(cursor, direction, side), turned, side)
            == search_weight(grid, cursor, direction, side)),
{
    let moved = move_cursor(cursor, direction, side);
    let old_left = left_to_try(grid, cursor, direction, side);
    let new_left = left_to_try(after, moved, turned, side);
    let j = scan_index(p, side);
    lemma_move_index(cursor, direction, side);
    lemma_scan(side, p);
    lemma_with_state(grid, side, p, state_at(after, p));
    assert forall|i: int| 0 <= i < side * side && i != j implies state_at(
        after,
        #[trigger] scan_position(i, side),
    ) == state_at(grid, scan_position(i, side)) by {
        lemma_scan_position(side, i);
    }
    if after == grid && turned == Direction::Forward && direction == Direction::Forward {
        lemma_numeral_same(new_left, old_left, side * side, side + 3);
    } else {
        assert(new_left(j) < old_left(j));
        assert forall|i: int| 0 <= i < j implies #[trigger] new_left(i) == old_left(i) by {}
        lemma_numeral_less(new_left, old_left, j, side * side, side + 3);
    }
}

/// The cursor on the cell that comes `k`-th when the grid is read line by
/// line, counting from `0`; before the first cell for a negative `k`.
pub open spec fn cursor_at(k: int, side: int) -> Cursor {
    if k < 0 {
        Cursor::AtStart
    } else {
        Cursor::AtCell(scan_position(k, side).0, scan_position(k, side).1)
    }
}

/// Going forward, the cursor visits the cells line by line.
pub proof fn lemma_cursor_forward(k: int, side: int)
    requires
        0 <= k < side * side,
        0 < side,
    ensures
        move_cursor(cursor_at(k - 1, side), Direction::Forward, side) == cursor_at(k, side),
        cursor_position(cursor_at(k, side)) == Some(scan_position(k, side)),
{
    let before = cursor_at(k - 1, side);
    if k > 0 {
        lemma_scan_position(side, k - 1);
    }
    lemma_scan_position(side, k);
    lemma_move_index(before, Direction::Forward, side);
    let moved = move_cursor(before, Direction::Forward, side);
    match moved {
        Cursor::AtCell(x, y) => {
            lemma_scan(side, (x, y));
        },
        _ => {},
    }
}

/// As long as the search meets given and solved cells only, it goes
/// forward and changes nothing.
pub proof fn lemma_search_passes_fixed(grid: GridModel, k: nat, block: int)
    requires
        0 < block,
        k <= block * block * (block * block),
        forall|j: int|
            0 <= j < k ==> state_at(grid, #[trigger] scan_position(j, block * block)).is_fixed(),
    ensures
        search_run(search_start(grid), k, block) == (Search {
            grid,
            cursor: cursor_at(k - 1, block * block),
            direction: Direction::Forward,
            outcome: None,
        }),
    decreases k,
{
    if k > 0 {
        let side = block * block;
        assert(0 < side) by (nonlinear_arith)
            requires
                0 < block,
                side == block * block,
        ;
        lemma_search_passes_fixed(grid, (k - 1) as nat, block);
        lemma_cursor_forward(k - 1, side);
        assert(state_at(grid, scan_position(k - 1, side)).is_fixed());
    }
}

/// Conflict detection in the search: where the first cell that is neither
/// given nor solved is empty, and two of its peers hold the same number, the
/// search ends there with that conflict and has changed nothing. In a grid
/// of hints the conflict is one of hints between two such peers, as
/// [`crate::grid::lemma_candidates`] shows.
pub proof fn lemma_search_stops_at_conflict(grid: GridModel, k: nat, block: int, conflict: Conflict)
    requires
        0 < block,
        k < block * block * (block * block),
        forall|j: int|
            0 <= j < k ==> state_at(grid, #[trigger] scan_position(j, block * block)).is_fixed(),
        state_at(grid, scan_position(k as int, block * block)) is Empty,
        candidates(grid, scan_position(k as int, block * block), block) == Err::<Seq<bool>, Conflict>(
            conflict,
        ),
    ensures
        search_run(search_start(grid), k + 1, block) == (Search {
            grid,
            cursor: cursor_at(k as int, block * block),
            direction: Direction::Forward,
            outcome: Some(Err(SolveFailure::Conflict(conflict))),
        }),
{
    let side = block * block;
    assert(0 < side) by (nonlinear_arith)
        requires
            0 < block,
            side == block * block,
    ;
    lemma_search_passes_fixed(grid, k, block);
    lemma_cursor_forward(k as int, side);
}

impl<const SQUARE_SIZE: u8> Sudoku<SQUARE_SIZE> {
    /// Solves the grid by search. The cells are visited line by line; in each
    /// empty cell the numbers that it can take are tried from the smallest
    /// on, and a number that leads nowhere is taken back. Cells that are
    /// given or solved stay as they are.
    ///
    /// The search runs step by step, as [`search_step`] says, until it ends.
    /// On a grid of ready cells without a clash it ends with success exactly
    /// if the grid has a solution, and then the grid is filled to one, which
    /// the verification finds complete; else it ends with
    /// [`SolveError::ImpossibleConfiguration`].
    pub fn solve_back_trace(&mut self) -> (r: Result<(), SolveError<SQUARE_SIZE>>)
        ensures
            exists|n: nat|
                {
                    let end = #[trigger] search_run(
                        search_start(old(self)@),
                        n,
                        SQUARE_SIZE as int,
                    );
                    &&& end.outcome == Some(solve_view(r))
                    &&& final(self)@ == end.grid
                },
            searchable(old(self)@, SQUARE_SIZE as int) ==> keeps_fixed(
                old(self)@,
                final(self)@,
                side(SQUARE_SIZE),
            ) && match r {
                Ok(()) => is_solution(final(self)@, old(self)@, SQUARE_SIZE as int) && verify_grid(
                    final(self)@,
                    SQUARE_SIZE as int,
                ) == Ok::<VerificationResult, Conflict>(VerificationResult::Complete),
                Err(e) => e == SolveError::<SQUARE_SIZE>::ImpossibleConfiguration && unsolvable(
                    old(self)@,
                    SQUARE_SIZE as int,
                ),
            },
    {
        let ghost block = SQUARE_SIZE as int;
        let ghost n = side(SQUARE_SIZE);
        let ghost start = search_start(self@);
        let ghost mut steps: nat = 0;
        let mut direction = Direction::Forward;
        let mut pos_tracker = BackTracePositionTracker::new();
        proof {
            self.lemma_shape();
            lemma_side_bound(SQUARE_SIZE);
            lemma_search_weight_bound(self@, pos_tracker@, direction, n);
        }
        loop
            invariant
                block == SQUARE_SIZE as int,
                n == side(SQUARE_SIZE),
                n == block * block,
                0 <= n,
                start == search_start(old(self)@),
                search_run(start, steps, block) == (Search {
                    grid: self@,
                    cursor: pos_tracker@,
                    direction,
                    outcome: None,
                }),
                well_shaped(self@, n),
                cursor_fits(pos_tracker@, n),
                0 <= search_weight(self@, pos_tracker@, direction, n),
                cursor_index(pos_tracker@, n) <= n * n,
            decreases
                    search_weight(self@, pos_tracker@, direction, n),
                    n * n - cursor_index(pos_tracker@, n),
        {
            let ghost before = search_run(start, steps, block);
            let ghost after = search_step(before, block);
            proof {
                lemma_move_index(pos_tracker@, direction, n);
                assert(search_run(start, steps + 1, block) == after);
            }
            let pos = pos_tracker.move_pos(direction);
            match pos {
                Some(pos) => {
                    let ghost p = pos@;
                    proof {
                        lemma_scan(n, p);
                    }
                    match self.get_cell(pos).state() {
                        CellState::Given(_)
                        | CellState::SolvedDeduction(_)
                        | CellState::SolvedBackTrace(_) => {},
                        CellState::Empty(_) => {
                            let possibility = match self.possibility_cell(pos) {
                                Ok(possibility) => possibility,
                                Err(e) => {
                                    proof {
                                        if searchable(old(self)@, block) {
                                            lemma_search_sound_and_complete(
                                                old(self)@,
                                                steps + 1,
                                                block,
                                            );
                                        }
                                    }
                                    return Err(SolveError::VerificationError(e));
                                },
                            };
                            proof {
                                lemma_next_allowed(possibility@, 0);
                            }
                            match CellGuess::new(possibility) {
                                Some(guess) => {
                                    direction = Direction::Forward;
                                    *self.get_cell_mut(pos) = Cell::new(CellState::Guess(guess));
                                },
                                None => {
                                    direction = Direction::Backward;
                                },
                            }
                        },
                        CellState::Guess(_) => {
                            let ghost tried = state_at(self@, p)->Guess_0;
                            let cell = self.get_cell_mut(pos);
                            let advanced = match cell.state_mut() {
                                CellState::Guess(guess) => guess.next_guess().is_some(),
                                _ => false,
                            };
                            proof {
                                if let Some(number) = tried.number {
                                    lemma_next_allowed(tried.possibility, number);
                                }
                                assert(self@ == with_state(
                                    before.grid,
                                    p,
                                    CellModel::Guess(
                                        GuessModel {
                                            number: next_try(tried),
                                            possibility: tried.possibility,
                                        },
                                    ),
                                ));
                            }
                            if advanced {
                                direction = Direction::Forward;
                            } else {
                                direction = Direction::Backward;
                                let ghost spent = self@;
                                *self.get_cell_mut(pos) = Cell::new(CellState::Empty(None));
                                proof {
                                    lemma_with_state(before.grid, n, p, state_at(spent, p));
                                    assert(self@ =~= with_state(
                                        before.grid,
                                        p,
                                        CellModel::Empty(None),
                                    )) by {
                                        assert(self@[p.0] =~= before.grid[p.0].update(
                                            p.1,
                                            CellModel::Empty(None),
                                        ));
                                    }
                                }
                            }
                        },
                    }
                    proof {
                        lemma_with_state(before.grid, n, p, state_at(self@, p));
                        lemma_search_progress(
                            before.grid,
                            before.cursor,
                            before.direction,
                            self@,
                            direction,
                            p,
                            n,
                        );
                        lemma_search_weight_bound(self@, pos_tracker@, direction, n);
                        steps = steps + 1;
                    }
                },
                None => {
                    proof {
                        if searchable(old(self)@, block) {
                            lemma_search_sound_and_complete(old(self)@, steps + 1, block);
                            if direction == Direction::Forward {
                                lemma_filled_grid_verifies(self@, block);
                            }
                        }
                    }
                    return match direction {
                        Direction::Forward => Ok(()),
                        Direction::Backward => Err(SolveError::ImpossibleConfiguration),
                    };
                },
            }
        }
    }
}

} // verus!
