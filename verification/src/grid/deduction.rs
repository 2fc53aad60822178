//! Solving by deduction: a cell that can take one number only gets it.

use vstd::prelude::*;
use crate::cell::{
    allows, game_side, is_only, lemma_count_one, lemma_next_allowed, side, sole, Cell, CellModel,
    CellState,
};
use crate::grid::{
    all_ready, candidates, is_solution, keeps_fixed, lemma_candidates, lemma_ready_in_range,
    lemma_scan, lemma_scan_position, lemma_verified_grid_is_filled, lemma_with_state, on_grid,
    only_solution, outcome_view, peers, ready, row_positions, scan_index, scan_position, state_at,
    value_at, verify_grid, well_shaped, with_state, CellPosition, Conflict, GridModel, Row, Sudoku,
    SudokuIter, VerificationError, VerificationResult,
};

verus! {

/// How many of the first `k` cells, read line by line, are empty.
pub open spec fn empties(grid: GridModel, k: int, side: int) -> int
    decreases k,
{
    if k <= 0 {
        0
    } else {
        empties(grid, k - 1, side) + if state_at(grid, scan_position(k - 1, side)) is Empty {
            1int
        } else {
            0int
        }
    }
}

/// There are no more empty cells than cells.
pub proof fn lemma_empties_bound(grid: GridModel, k: int, side: int)
    ensures
        0 <= empties(grid, k, side),
        0 <= k ==> empties(grid, k, side) <= k,
    decreases k,
{
    if k > 0 {
        lemma_empties_bound(grid, k - 1, side);
    }
}

/// Filling one empty cell lowers the count of empty cells by one.
pub proof fn lemma_empties_filled(
    grid: GridModel,
    side: int,
    p: (int, int),
    state: CellModel,
    k: int,
)
    requires
        well_shaped(grid, side),
        on_grid(p, side),
        state_at(grid, p) is Empty,
        !(state is Empty),
        0 <= k <= side * side,
    ensures
        empties(with_state(grid, p, state), k, side) == empties(grid, k, side) - if scan_index(
            p,
            side,
        ) < k {
            1int
        } else {
            0int
        },
    decreases k,
{
    if k > 0 {
        lemma_empties_filled(grid, side, p, state, k - 1);
        lemma_scan(side, p);
        lemma_scan_position(side, k - 1);
        lemma_with_state(grid, side, p, state);
    }
}

/// A grid in the middle of a pass of deduction.
pub struct Pass {
    /// The states of the cells.
    pub grid: GridModel,
    /// Whether the pass has filled a cell.
    pub changed: bool,
    /// The conflict that stopped the pass, if one did.
    pub conflict: Option<Conflict>,
}

/// The pass of deduction over the first `k` cells of `grid`, read line by
/// line: each empty cell that can take exactly one number, in view of what
/// the grid holds when the pass comes to it, is solved with that number. A
/// conflict met on the way stops the pass where it is.
pub open spec fn deduce_cells(grid: GridModel, k: int, block: int) -> Pass
    decreases k,
{
    if k <= 0 {
        Pass { grid, changed: false, conflict: None }
    } else {
        let before = deduce_cells(grid, k - 1, block);
        let p = scan_position(k - 1, block * block);
        if before.conflict is Some || !(state_at(before.grid, p) is Empty) {
            before
        } else {
            match candidates(before.grid, p, block) {
                Err(conflict) => Pass { conflict: Some(conflict), ..before },
                Ok(possibility) => match sole(possibility) {
                    Some(v) => Pass {
                        grid: with_state(before.grid, p, CellModel::SolvedDeduction(v)),
                        changed: true,
                        conflict: None,
                    },
                    None => before,
                },
            }
        }
    }
}

/// One whole pass of deduction over `grid`.
pub open spec fn deduce_pass(grid: GridModel, block: int) -> Pass {
    deduce_cells(grid, block * block * (block * block), block)
}

/// Whether deduction stops after the pass `pass`: it met a conflict or
/// filled nothing.
pub open spec fn is_last_pass(pass: Pass) -> bool {
    pass.conflict is Some || !pass.changed
}

/// The `n`-th pass of deduction on `grid`, where passes follow one another
/// until one is the last.
pub open spec fn deduce_passes(grid: GridModel, n: nat, block: int) -> Pass
    decreases n,
{
    if n <= 1 {
        deduce_pass(grid, block)
    } else {
        let before = deduce_passes(grid, (n - 1) as nat, block);
        if is_last_pass(before) {
            before
        } else {
            deduce_pass(before.grid, block)
        }
    }
}

/// What deduction returns when it stops after the pass `pass`: the conflict
/// that the pass met, or else what the verification of the grid finds.
pub open spec fn deduction_outcome(pass: Pass, block: int) -> Result<VerificationResult, Conflict> {
    match pass.conflict {
        Some(conflict) => Err(conflict),
        None => verify_grid(pass.grid, block),
    }
}

/// Deduction is a function of the grid: whichever last pass one looks at, it
/// is the same.
pub proof fn lemma_deduction_deterministic(grid: GridModel, n: nat, m: nat, block: int)
    requires
        is_last_pass(deduce_passes(grid, n, block)),
        is_last_pass(deduce_passes(grid, m, block)),
    ensures
        deduce_passes(grid, n, block) == deduce_passes(grid, m, block),
{
    if n < m {
        lemma_passes_stay(grid, n, m, block);
    } else if m < n {
        lemma_passes_stay(grid, m, n, block);
    } else {
    }
}

/// After its last pass deduction changes nothing any more.
pub proof fn lemma_passes_stay(grid: GridModel, n: nat, m: nat, block: int)
    requires
        is_last_pass(deduce_passes(grid, n, block)),
        n <= m,
    ensures
        deduce_passes(grid, m, block) == deduce_passes(grid, n, block),
    decreases m,
{
    if n < m {
        if m >= 2 {
            lemma_passes_stay(grid, n, (m - 1) as nat, block);
        }
    }
}

/// Deduction leaves a grid as it was but for empty cells that it has solved.
pub open spec fn only_deduced(before: GridModel, after: GridModel, side: int) -> bool {
    &&& well_shaped(after, side)
    &&& forall|p: (int, int)|
        on_grid(p, side) ==> #[trigger] state_at(after, p) == state_at(before, p) || (state_at(
            before,
            p,
        ) is Empty && state_at(after, p) is SolvedDeduction)
}

/// A pass that has met a conflict stays as it is to its end.
pub proof fn lemma_pass_stops(grid: GridModel, k: int, upto: int, block: int)
    requires
        k <= upto,
        deduce_cells(grid, k, block).conflict is Some,
    ensures
        deduce_cells(grid, upto, block) == deduce_cells(grid, k, block),
    decreases upto - k,
{
    if k < upto {
        lemma_pass_stops(grid, k, upto - 1, block);
    }
}

/// What deduction fills in is forced: a solution of the grid holds, in a
/// cell that can take one number only, that number.
pub proof fn lemma_forced(grid: GridModel, solution: GridModel, p: (int, int), v: int, block: int)
    requires
        all_ready(grid, block),
        is_solution(solution, grid, block),
        on_grid(p, block * block),
        candidates(grid, p, block) matches Ok(possibility) && sole(possibility) == Some(v),
    ensures
        value_at(solution, p) == Some(v),
        1 <= v <= block * block,
{
    let side = block * block;
    let possibility = candidates(grid, p, block)->Ok_0;
    let w = value_at(solution, p)->0;
    lemma_candidates(grid, p, block);
    assert(allows(possibility, w)) by {
        assert forall|q: (int, int)| on_grid(q, side) && peers(p, q, block) implies value_at(
            grid,
            q,
        ) != Some(w) by {
            if value_at(grid, q) == Some(w) {
                assert(ready(state_at(grid, q), side));
                assert(value_at(solution, q) == value_at(grid, q));
                assert(value_at(solution, p) == value_at(solution, q));
            }
        }
    }
    lemma_count_one(possibility);
    lemma_next_allowed(possibility, 0);
    let i = choose|i: int| is_only(possibility, i);
    assert(possibility[w - 1]);
    assert(possibility[v - 1]);
}

/// A pass of deduction keeps the cells ready, and leaves the given and
/// solved ones as they are.
pub proof fn lemma_pass_keeps_ready(grid: GridModel, k: int, block: int)
    requires
        all_ready(grid, block),
        k <= block * block * (block * block),
    ensures
        all_ready(deduce_cells(grid, k, block).grid, block),
        keeps_fixed(grid, deduce_cells(grid, k, block).grid, block * block),
    decreases k,
{
    if k > 0 {
        let side = block * block;
        assert(0 < side) by (nonlinear_arith)
            requires
                0 < block,
                side == block * block,
        ;
        lemma_pass_keeps_ready(grid, k - 1, block);
        let before = deduce_cells(grid, k - 1, block);
        let after = deduce_cells(grid, k, block);
        let p = scan_position(k - 1, side);
        lemma_scan_position(side, k - 1);
        if after.grid != before.grid {
            let possibility = candidates(before.grid, p, block)->Ok_0;
            let v = sole(possibility)->0;
            let state = CellModel::SolvedDeduction(v);
            lemma_candidates(before.grid, p, block);
            lemma_next_allowed(possibility, 0);
            lemma_with_state(before.grid, side, p, state);
            assert forall|q: (int, int)| on_grid(q, side) implies ready(
                #[trigger] state_at(after.grid, q),
                side,
            ) by {
                if q != p {
                    assert(ready(state_at(before.grid, q), side));
                }
            }
            assert forall|q: (int, int)|
                on_grid(q, side) && state_at(grid, q).is_fixed() implies #[trigger] state_at(
                after.grid,
                q,
            ) == state_at(grid, q) by {
                assert(state_at(before.grid, q) == state_at(grid, q));
            }
        }
    }
}

/// Deduction keeps the cells ready, and leaves the given and solved ones as
/// they are.
pub proof fn lemma_deduction_keeps_ready(grid: GridModel, n: nat, block: int)
    requires
        all_ready(grid, block),
    ensures
        all_ready(deduce_passes(grid, n, block).grid, block),
        keeps_fixed(grid, deduce_passes(grid, n, block).grid, block * block),
    decreases n,
{
    let cells = block * block * (block * block);
    if n <= 1 {
        lemma_pass_keeps_ready(grid, cells, block);
    } else {
        lemma_deduction_keeps_ready(grid, (n - 1) as nat, block);
        let before = deduce_passes(grid, (n - 1) as nat, block);
        if !is_last_pass(before) {
            lemma_pass_keeps_ready(before.grid, cells, block);
            let after = deduce_pass(before.grid, block);
            assert forall|q: (int, int)|
                on_grid(q, block * block) && state_at(grid, q).is_fixed() implies #[trigger] state_at(
                after.grid,
                q,
            ) == state_at(grid, q) by {
                assert(state_at(before.grid, q) == state_at(grid, q));
            }
        }
    }
}

/// A grid that deduction has filled is the one solution of the grid that it
/// began with: where the grid left by some passes verifies as complete, it
/// solves the first grid, and no other filling does.
pub proof fn lemma_deduction_finds_the_solution(grid: GridModel, n: nat, block: int)
    requires
        all_ready(grid, block),
        verify_grid(deduce_passes(grid, n, block).grid, block) == Ok::<
            VerificationResult,
            Conflict,
        >(VerificationResult::Complete),
    ensures
        only_solution(deduce_passes(grid, n, block).grid, grid, block),
{
    let side = block * block;
    let found = deduce_passes(grid, n, block).grid;
    lemma_deduction_keeps_ready(grid, n, block);
    lemma_ready_in_range(found, block);
    lemma_verified_grid_is_filled(found, block);
    assert forall|p: (int, int)| on_grid(p, side) && state_at(grid, p).is_fixed() implies 
        #[trigger] value_at(found, p) == value_at(grid, p) by {
        assert(state_at(found, p) == state_at(grid, p));
    }
    assert forall|solution: GridModel, p: (int, int)|
        is_solution(solution, grid, block) && on_grid(p, side) implies #[trigger] value_at(
        solution,
        p,
    ) == value_at(found, p) by {
        lemma_deduction_keeps_solution(grid, solution, n, block);
        assert(ready(state_at(found, p), side));
        assert(value_at(found, p) is Some);
    }
}

/// A pass of deduction loses no solution: every solution of the grid still
/// solves it after any part of the pass.
pub proof fn lemma_pass_keeps_solution(grid: GridModel, solution: GridModel, k: int, block: int)
    requires
        all_ready(grid, block),
        is_solution(solution, grid, block),
        k <= block * block * (block * block),
    ensures
        all_ready(deduce_cells(grid, k, block).grid, block),
        is_solution(solution, deduce_cells(grid, k, block).grid, block),
    decreases k,
{
    if k > 0 {
        let side = block * block;
        assert(0 < side) by (nonlinear_arith)
            requires
                0 < block,
                side == block * block,
        ;
        lemma_pass_keeps_solution(grid, solution, k - 1, block);
        let before = deduce_cells(grid, k - 1, block);
        let after = deduce_cells(grid, k, block);
        let p = scan_position(k - 1, side);
        lemma_scan_position(side, k - 1);
        if after.grid != before.grid {
            let possibility = candidates(before.grid, p, block)->Ok_0;
            let v = sole(possibility)->0;
            let state = CellModel::SolvedDeduction(v);
            lemma_forced(before.grid, solution, p, v, block);
            lemma_with_state(before.grid, side, p, state);
            assert forall|q: (int, int)| on_grid(q, side) implies ready(
                #[trigger] state_at(after.grid, q),
                side,
            ) by {
                if q != p {
                    assert(ready(state_at(before.grid, q), side));
                }
            }
            assert forall|q: (int, int)|
                on_grid(q, side) && state_at(after.grid, q).is_fixed() implies #[trigger] value_at(
                solution,
                q,
            ) == value_at(after.grid, q) by {
                if q != p {
                    assert(state_at(after.grid, q) == state_at(before.grid, q));
                }
            }
        }
    }
}

/// Deduction loses no solution: every solution of the grid still solves it
/// after any number of passes.
pub proof fn lemma_deduction_keeps_solution(
    grid: GridModel,
    solution: GridModel,
    n: nat,
    block: int,
)
    requires
        all_ready(grid, block),
        is_solution(solution, grid, block),
    ensures
        all_ready(deduce_passes(grid, n, block).grid, block),
        is_solution(solution, deduce_passes(grid, n, block).grid, block),
    decreases n,
{
    let cells = block * block * (block * block);
    if n <= 1 {
        lemma_pass_keeps_solution(grid, solution, cells, block);
    } else {
        lemma_deduction_keeps_solution(grid, solution, (n - 1) as nat, block);
        let before = deduce_passes(grid, (n - 1) as nat, block);
        if !is_last_pass(before) {
            lemma_pass_keeps_solution(before.grid, solution, cells, block);
        }
    }
}

impl<const SQUARE_SIZE: u8> Sudoku<SQUARE_SIZE> {
    /// One pass of deduction: every empty cell that can take exactly one
    /// number is solved with it. Says whether a cell was solved.
    fn deduction_pass(&mut self) -> (r: Result<bool, VerificationError<SQUARE_SIZE>>)
        ensures
            final(self)@ == deduce_pass(old(self)@, SQUARE_SIZE as int).grid,
            match r {
                Ok(changed) => deduce_pass(old(self)@, SQUARE_SIZE as int).conflict is None
                    && changed == deduce_pass(old(self)@, SQUARE_SIZE as int).changed,
                Err(e) => deduce_pass(old(self)@, SQUARE_SIZE as int).conflict == Some(e@),
            },
            only_deduced(old(self)@, final(self)@, side(SQUARE_SIZE)),
            empties(final(self)@, side(SQUARE_SIZE) * side(SQUARE_SIZE), side(SQUARE_SIZE))
                <= empties(old(self)@, side(SQUARE_SIZE) * side(SQUARE_SIZE), side(SQUARE_SIZE)),
            r == Ok::<bool, VerificationError<SQUARE_SIZE>>(true) ==> empties(
                final(self)@,
                side(SQUARE_SIZE) * side(SQUARE_SIZE),
                side(SQUARE_SIZE),
            ) < empties(old(self)@, side(SQUARE_SIZE) * side(SQUARE_SIZE), side(SQUARE_SIZE)),
    {
        let n = game_side(SQUARE_SIZE);
        let ghost block = SQUARE_SIZE as int;
        let ghost cells = side(SQUARE_SIZE) * side(SQUARE_SIZE);
        let mut modification = false;
        let mut y: usize = 0;
        proof {
            self.lemma_shape();
            assert(block * block * (block * block) == cells);
        }
        while y < n
            invariant
                n == side(SQUARE_SIZE),
                block == SQUARE_SIZE as int,
                cells == n * n,
                y <= n,
                self@ == deduce_cells(old(self)@, y * n, block).grid,
                deduce_cells(old(self)@, y * n, block).conflict is None,
                modification == deduce_cells(old(self)@, y * n, block).changed,
                only_deduced(old(self)@, self@, n as int),
                well_shaped(old(self)@, n as int),
                empties(self@, cells, n as int) <= empties(old(self)@, cells, n as int),
                modification ==> empties(self@, cells, n as int) < empties(
                    old(self)@,
                    cells,
                    n as int,
                ),
            decreases n - y,
        {
            let first = CellPosition::new_from_number(0, y);
            let mut row = Row::new(first.unwrap());
            let ghost whole = row_positions(n as int, y as int);
            let ghost mut x: int = 0;
            let mut next = row.next();
            proof {
                assert(whole.drop_first() =~= whole.skip(1));
            }
            while next.is_some()
                invariant
                    n == side(SQUARE_SIZE),
                    block == SQUARE_SIZE as int,
                    cells == n * n,
                    y < n,
                    whole == row_positions(n as int, y as int),
                    0 <= x <= n,
                    next matches Some(pos) ==> x < n && pos@ == (x, y as int) && row.remaining()
                        == whole.skip(x + 1),
                    next is None ==> x == n,
                    self@ == deduce_cells(old(self)@, y * n + x, block).grid,
                    deduce_cells(old(self)@, y * n + x, block).conflict is None,
                    modification == deduce_cells(old(self)@, y * n + x, block).changed,
                    only_deduced(old(self)@, self@, n as int),
                    well_shaped(old(self)@, n as int),
                    empties(self@, cells, n as int) <= empties(old(self)@, cells, n as int),
                    modification ==> empties(self@, cells, n as int) < empties(
                        old(self)@,
                        cells,
                        n as int,
                    ),
                decreases n - x,
            {
                let pos = next.unwrap();
                let ghost k = y * n + x;
                let ghost before = self@;
                proof {
                    lemma_scan(n as int, pos@);
                    assert(scan_position(k, block * block) == pos@);
                    assert(k + 1 <= cells) by (nonlinear_arith)
                        requires
                            k == y * n + x,
                            0 <= x < n,
                            0 <= y < n,
                            cells == n * n,
                    ;
                }
                let is_empty = match self.get_cell(pos).state() {
                    CellState::Empty(_) => true,
                    _ => false,
                };
                if is_empty {
                    let possibility = match self.possibility_cell(pos) {
                        Ok(possibility) => possibility,
                        Err(e) => {
                            proof {
                                assert(deduce_cells(old(self)@, k + 1, block).conflict == Some(e@));
                                lemma_pass_stops(old(self)@, k + 1, cells, block);
                            }
                            return Err(e);
                        },
                    };
                    match possibility.cell_number() {
                        Some(number) => {
                            modification = true;
                            *self.get_cell_mut(pos) = Cell::new(CellState::SolvedDeduction(number));
                            proof {
                                let state = CellModel::SolvedDeduction(number@);
                                lemma_with_state(before, n as int, pos@, state);
                                lemma_empties_filled(before, n as int, pos@, state, cells);
                                assert forall|p: (int, int)| on_grid(p, n as int) implies 
                                    #[trigger] state_at(self@, p) == state_at(old(self)@, p) || (
                                    state_at(old(self)@, p) is Empty && state_at(
                                        self@,
                                        p,
                                    ) is SolvedDeduction) by {
                                    if p != pos@ {
                                        assert(state_at(self@, p) == state_at(before, p));
                                    } else {
                                        assert(state_at(before, p) == state_at(old(self)@, p));
                                    }
                                }
                            }
                        },
                        None => {},
                    }
                }
                next = row.next();
                proof {
                    if x + 1 < n {
                        assert(whole.skip(x + 1)[0] == whole[x + 1]);
                        assert(whole.skip(x + 1).drop_first() =~= whole.skip(x + 2));
                    }
                    x = x + 1;
                }
            }
            proof {
                assert((y + 1) * n == y * n + n) by (nonlinear_arith);
            }
            y = y + 1;
        }
        Ok(modification)
    }

    /// Solves what deduction can solve: passes over the grid follow one
    /// another until one of them fills no cell; then the grid is verified. A
    /// conflict met in a pass ends the work at once; what was filled until
    /// then stays. There is at most one pass more than there were empty
    /// cells.
    ///
    /// Only empty cells change, and they become solved cells. Where the
    /// result is `Complete`, every row, column and block holds each number
    /// once. On a grid of ready cells no solution is lost: what deduction
    /// fills in is forced. So a grid of ready cells that deduction
    /// completes had that one solution and no other.
    pub fn try_solve(&mut self) -> (r: Result<VerificationResult, VerificationError<SQUARE_SIZE>>)
        ensures
            exists|n: nat|
                {
                    let last = #[trigger] deduce_passes(old(self)@, n, SQUARE_SIZE as int);
                    &&& is_last_pass(last)
                    &&& final(self)@ == last.grid
                    &&& outcome_view(r) == deduction_outcome(last, SQUARE_SIZE as int)
                    &&& n <= 1 + empties(
                        old(self)@,
                        side(SQUARE_SIZE) * side(SQUARE_SIZE),
                        side(SQUARE_SIZE),
                    )
                },
            only_deduced(old(self)@, final(self)@, side(SQUARE_SIZE)),
            r == Ok::<VerificationResult, VerificationError<SQUARE_SIZE>>(
                VerificationResult::Complete,
            ) ==> crate::grid::solved(final(self)@, SQUARE_SIZE as int),
            all_ready(old(self)@, SQUARE_SIZE as int) ==> forall|solution: GridModel|
                is_solution(solution, old(self)@, SQUARE_SIZE as int) ==> #[trigger] is_solution(
                    solution,
                    final(self)@,
                    SQUARE_SIZE as int,
                ),
            all_ready(old(self)@, SQUARE_SIZE as int) && r == Ok::<
                VerificationResult,
                VerificationError<SQUARE_SIZE>,
            >(VerificationResult::Complete) ==> only_solution(
                final(self)@,
                old(self)@,
                SQUARE_SIZE as int,
            ),
    {
        let ghost block = SQUARE_SIZE as int;
        let ghost n = side(SQUARE_SIZE);
        let ghost cells = n * n;
        let ghost mut passes: nat = 0;
        let mut modification = true;
        proof {
            self.lemma_shape();
            lemma_empties_bound(self@, cells, n);
        }
        while modification
            invariant
                block == SQUARE_SIZE as int,
                n == side(SQUARE_SIZE),
                cells == n * n,
                well_shaped(old(self)@, n),
                only_deduced(old(self)@, self@, n),
                0 <= empties(self@, cells, n),
                passes + empties(self@, cells, n) <= empties(old(self)@, cells, n) + if modification {
                    0int
                } else {
                    1int
                },
                modification && passes == 0 ==> self@ == old(self)@,
                modification && passes > 0 ==> !is_last_pass(
                    deduce_passes(old(self)@, passes, block),
                ),
                passes > 0 ==> self@ == deduce_passes(old(self)@, passes, block).grid,
                !modification ==> passes > 0 && is_last_pass(
                    deduce_passes(old(self)@, passes, block),
                ) && deduce_passes(old(self)@, passes, block).conflict is None,
            decreases
                    empties(self@, cells, n) + if modification {
                        1int
                    } else {
                        0int
                    },
        {
            let ghost before = self@;
            match self.deduction_pass() {
                Ok(changed) => {
                    modification = changed;
                },
                Err(e) => {
                    proof {
                        let last = deduce_passes(old(self)@, passes + 1, block);
                        assert(last == deduce_pass(before, block));
                        lemma_only_deduced_follows(old(self)@, before, self@, n);
                        if all_ready(old(self)@, block) {
                            assert forall|solution: GridModel|
                                is_solution(solution, old(self)@, block) implies #[trigger] is_solution(
                                solution,
                                self@,
                                block,
                            ) by {
                                lemma_deduction_keeps_solution(
                                    old(self)@,
                                    solution,
                                    passes + 1,
                                    block,
                                );
                            }
                        }
                    }
                    return Err(e);
                },
            }
            proof {
                assert(deduce_passes(old(self)@, passes + 1, block) == deduce_pass(before, block));
                lemma_only_deduced_follows(old(self)@, before, self@, n);
                lemma_empties_bound(self@, cells, n);
                passes = passes + 1;
            }
        }
        proof {
            if all_ready(old(self)@, block) {
                assert forall|solution: GridModel|
                    is_solution(solution, old(self)@, block) implies #[trigger] is_solution(
                    solution,
                    self@,
                    block,
                ) by {
                    lemma_deduction_keeps_solution(old(self)@, solution, passes, block);
                }
                if verify_grid(self@, block) == Ok::<VerificationResult, Conflict>(
                    VerificationResult::Complete,
                ) {
                    lemma_deduction_finds_the_solution(old(self)@, passes, block);
                }
            }
        }
        self.verify_configuration()
    }
}

/// What deduction has done in two stretches, it has done in one.
pub proof fn lemma_only_deduced_follows(
    first: GridModel,
    second: GridModel,
    third: GridModel,
    side: int,
)
    requires
        only_deduced(first, second, side),
        only_deduced(second, third, side),
    ensures
        only_deduced(first, third, side),
{
    assert forall|p: (int, int)| on_grid(p, side) implies #[trigger] state_at(third, p) == state_at(
        first,
        p,
    ) || (state_at(first, p) is Empty && state_at(third, p) is SolvedDeduction) by {
        assert(state_at(second, p) == state_at(first, p) || (state_at(first, p) is Empty
            && state_at(second, p) is SolvedDeduction));
        assert(state_at(third, p) == state_at(second, p) || (state_at(second, p) is Empty
            && state_at(third, p) is SolvedDeduction));
    }
}

} // verus!
