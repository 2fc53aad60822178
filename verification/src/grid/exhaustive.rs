//! Why the search is right: what it returns with success is a solution,
//! and where it gives up there is none.

use vstd::prelude::*;
use crate::cell::{allows, lemma_next_allowed, next_allowed, CellModel, GuessModel};
use crate::grid::{
    candidates, consistent, cursor_fits, cursor_index, cursor_position, is_solution, keeps_fixed,
    lemma_candidates, lemma_move_index, lemma_scan, lemma_with_state, move_cursor, next_try,
    on_grid, peers, ready, scan_index, search_run, search_start, search_step, searchable, state_at,
    unsolvable, value_at, well_shaped, with_state, Conflict, Cursor, Direction, GridModel, Search,
    SolveFailure,
};

verus! {

/// The cell at `q` was settled before the cell at `p` was: it is given or
/// solved, or comes earlier when the grid is read line by line.
pub open spec fn earlier(grid: GridModel, p: (int, int), q: (int, int), side: int) -> bool {
    state_at(grid, q).is_fixed() || scan_index(q, side) < scan_index(p, side)
}

/// The number `w` is out of the question for the cell at `p`: a peer that
/// was settled before holds it.
pub open spec fn blocked(
    current: GridModel,
    grid: GridModel,
    p: (int, int),
    w: int,
    block: int,
) -> bool {
    exists|q: (int, int)|
        #![trigger value_at(current, q)]
        on_grid(q, block * block) && peers(p, q, block) && earlier(grid, p, q, block * block)
            && value_at(current, q) == Some(w)
}

/// The guess in the cell at `p` goes with the cells settled before it: it
/// tries a number, and it holds as possible the numbers that none of those
/// cells blocks.
pub open spec fn guess_fits(
    current: GridModel,
    grid: GridModel,
    p: (int, int),
    guess: GuessModel,
    block: int,
) -> bool {
    &&& guess.possibility.len() == block * block
    &&& guess.number matches Some(v) && allows(guess.possibility, v)
    &&& forall|w: int|
        1 <= w <= block * block ==> (#[trigger] allows(guess.possibility, w) <==> !blocked(
            current,
            grid,
            p,
            w,
            block,
        ))
}

/// The cell that comes `k`-th line by line has its guess, if it takes one.
pub open spec fn visited(s: Search, k: int, side: int) -> bool {
    if s.direction == Direction::Forward {
        k <= cursor_index(s.cursor, side)
    } else {
        k < cursor_index(s.cursor, side)
    }
}

/// The cell at `p` is as the search has left it: a given or solved cell as
/// it was, a cell that the search has visited with a fitting guess, any
/// other cell empty.
pub open spec fn settled(s: Search, grid: GridModel, p: (int, int), block: int) -> bool {
    let state = state_at(s.grid, p);
    if state_at(grid, p).is_fixed() {
        state == state_at(grid, p)
    } else if visited(s, scan_index(p, block * block), block * block) {
        state matches CellModel::Guess(guess) && guess_fits(s.grid, grid, p, guess, block)
    } else {
        state is Empty && state.value() is None
    }
}

/// `solution` holds what `current` holds in the first `k` cells, line by
/// line.
pub open spec fn agrees_before(current: GridModel, solution: GridModel, k: int, side: int) -> bool {
    forall|q: (int, int)|
        on_grid(q, side) && scan_index(q, side) < k ==> #[trigger] value_at(solution, q)
            == value_at(current, q)
}

/// At the cell at `p` the search has not gone past `solution`: where both
/// hold the same before, `solution` holds no smaller number there.
pub open spec fn not_behind(
    current: GridModel,
    solution: GridModel,
    p: (int, int),
    side: int,
) -> bool {
    agrees_before(current, solution, scan_index(p, side), side) ==> value_at(solution, p)->0
        >= value_at(current, p)->0
}

/// The search has not gone past `solution`; and where it walks backward,
/// `solution` is not among what it has left to try.
pub open spec fn not_passed(s: Search, solution: GridModel, block: int) -> bool {
    &&& forall|p: (int, int)|
        on_grid(p, block * block) && visited(s, scan_index(p, block * block), block * block)
            ==> #[trigger] not_behind(s.grid, solution, p, block * block)
    &&& s.direction == Direction::Backward ==> !agrees_before(
        s.grid,
        solution,
        cursor_index(s.cursor, block * block),
        block * block,
    )
}

/// The search `s` on `grid` is on course: it has not ended, every cell is as
/// the search has left it, and no solution of `grid` has been passed.
pub open spec fn on_course(s: Search, grid: GridModel, block: int) -> bool {
    &&& searchable(grid, block)
    &&& s.outcome is None
    &&& well_shaped(s.grid, block * block)
    &&& cursor_fits(s.cursor, block * block)
    &&& !(s.cursor is AtEnd)
    &&& s.direction == Direction::Backward ==> s.cursor is AtCell
    &&& forall|p: (int, int)| on_grid(p, block * block) ==> #[trigger] settled(s, grid, p, block)
    &&& forall|solution: GridModel|
        is_solution(solution, grid, block) ==> #[trigger] not_passed(s, solution, block)
}

/// Two positions of a grid have the same place exactly if they are the same.
pub proof fn lemma_places(side: int, p: (int, int), q: (int, int))
    requires
        on_grid(p, side),
        on_grid(q, side),
    ensures
        scan_index(p, side) == scan_index(q, side) <==> p == q,
        0 <= scan_index(p, side) < side * side,
{
    lemma_scan(side, p);
    lemma_scan(side, q);
}

/// In a search on course every cell that holds a number holds one of the
/// grid, and is given, solved or visited.
pub proof fn lemma_course_values(s: Search, grid: GridModel, p: (int, int), block: int)
    requires
        on_course(s, grid, block),
        on_grid(p, block * block),
    ensures
        value_at(s.grid, p) matches Some(v) ==> 1 <= v <= block * block && (state_at(
            grid,
            p,
        ).is_fixed() || visited(s, scan_index(p, block * block), block * block)),
        state_at(grid, p).is_fixed() ==> value_at(s.grid, p) is Some,
        !state_at(grid, p).is_fixed() && visited(s, scan_index(p, block * block), block * block)
            ==> value_at(s.grid, p) is Some,
{
    assert(settled(s, grid, p, block));
    assert(ready(state_at(grid, p), block * block));
}

/// In a search on course no two peers hold the same number.
pub proof fn lemma_course_consistent(s: Search, grid: GridModel, block: int)
    requires
        on_course(s, grid, block),
    ensures
        consistent(s.grid, block),
{
    let side = block * block;
    assert forall|p: (int, int), q: (int, int)|
        #![trigger value_at(s.grid, p), value_at(s.grid, q)]
        on_grid(p, side) && on_grid(q, side) && peers(p, q, block) && value_at(
            s.grid,
            p,
        ) is Some implies value_at(s.grid, p) != value_at(s.grid, q) by {
        if value_at(s.grid, p) == value_at(s.grid, q) {
            let w = value_at(s.grid, p)->0;
            lemma_course_values(s, grid, p, block);
            lemma_course_values(s, grid, q, block);
            lemma_places(side, p, q);
            assert(settled(s, grid, p, block));
            assert(settled(s, grid, q, block));
            assert(peers(q, p, block));
            if state_at(grid, p).is_fixed() && state_at(grid, q).is_fixed() {
                assert(value_at(grid, p) == value_at(s.grid, p));
                assert(value_at(grid, q) == value_at(s.grid, q));
            } else if earlier(grid, p, q, side) {
                assert(blocked(s.grid, grid, p, w, block));
                assert(allows(state_at(s.grid, p)->Guess_0.possibility, w));
            } else {
                assert(earlier(grid, q, p, side));
                assert(blocked(s.grid, grid, q, w, block));
                assert(allows(state_at(s.grid, q)->Guess_0.possibility, w));
            }
        }
    }
}

/// Where a solution holds what the search holds in the cells before `p`,
/// nothing blocks the number that it holds at `p`.
pub proof fn lemma_solution_fits(
    s: Search,
    grid: GridModel,
    solution: GridModel,
    p: (int, int),
    block: int,
)
    requires
        on_course(s, grid, block),
        is_solution(solution, grid, block),
        on_grid(p, block * block),
        agrees_before(s.grid, solution, scan_index(p, block * block), block * block),
    ensures
        !blocked(s.grid, grid, p, value_at(solution, p)->0, block),
        value_at(solution, p) matches Some(w) && 1 <= w <= block * block,
{
    let side = block * block;
    let w = value_at(solution, p)->0;
    if blocked(s.grid, grid, p, w, block) {
        let q = choose|q: (int, int)|
            #![trigger value_at(s.grid, q)]
            on_grid(q, side) && peers(p, q, block) && earlier(grid, p, q, side) && value_at(
                s.grid,
                q,
            ) == Some(w);
        assert(settled(s, grid, q, block));
        if state_at(grid, q).is_fixed() {
            assert(value_at(solution, q) == value_at(grid, q));
        } else {
            assert(value_at(solution, q) == value_at(s.grid, q));
        }
        assert(value_at(solution, p) == value_at(solution, q));
    }
}

/// Changing the cell at `p`, which is neither given nor solved, leaves
/// untouched what is blocked for the cells that do not come after it.
pub proof fn lemma_blocked_frame(
    current: GridModel,
    grid: GridModel,
    p: (int, int),
    state: CellModel,
    q: (int, int),
    w: int,
    block: int,
)
    requires
        well_shaped(current, block * block),
        on_grid(p, block * block),
        on_grid(q, block * block),
        !state_at(grid, p).is_fixed(),
        scan_index(q, block * block) <= scan_index(p, block * block),
    ensures
        blocked(with_state(current, p, state), grid, q, w, block) == blocked(
            current,
            grid,
            q,
            w,
            block,
        ),
{
    let side = block * block;
    let changed = with_state(current, p, state);
    lemma_with_state(current, side, p, state);
    if blocked(current, grid, q, w, block) {
        let r = choose|r: (int, int)|
            #![trigger value_at(current, r)]
            on_grid(r, side) && peers(q, r, block) && earlier(grid, q, r, side) && value_at(
                current,
                r,
            ) == Some(w);
        assert(r != p);
        assert(state_at(changed, r) == state_at(current, r));
        assert(value_at(changed, r) == Some(w));
    }
    if blocked(changed, grid, q, w, block) {
        let r = choose|r: (int, int)|
            #![trigger value_at(changed, r)]
            on_grid(r, side) && peers(q, r, block) && earlier(grid, q, r, side) && value_at(
                changed,
                r,
            ) == Some(w);
        assert(r != p);
        assert(state_at(changed, r) == state_at(current, r));
        assert(value_at(current, r) == Some(w));
    }
}

/// Changing the cell at `p` leaves untouched whether a solution holds what
/// the search holds in the cells before it, or before an earlier cell.
pub proof fn lemma_agrees_frame(
    current: GridModel,
    solution: GridModel,
    p: (int, int),
    state: CellModel,
    k: int,
    side: int,
)
    requires
        well_shaped(current, side),
        on_grid(p, side),
        k <= scan_index(p, side),
    ensures
        agrees_before(with_state(current, p, state), solution, k, side) == agrees_before(
            current,
            solution,
            k,
            side,
        ),
{
    let changed = with_state(current, p, state);
    lemma_with_state(current, side, p, state);
    if agrees_before(current, solution, k, side) {
        assert forall|q: (int, int)| on_grid(q, side) && scan_index(q, side) < k implies 
            #[trigger] value_at(solution, q) == value_at(changed, q) by {
            assert(state_at(changed, q) == state_at(current, q));
        }
    }
    if agrees_before(changed, solution, k, side) {
        assert forall|q: (int, int)| on_grid(q, side) && scan_index(q, side) < k implies 
            #[trigger] value_at(solution, q) == value_at(current, q) by {
            assert(state_at(changed, q) == state_at(current, q));
            assert(value_at(solution, q) == value_at(changed, q));
        }
    }
}

/// What holds of the cell that a search on course comes to next.
pub proof fn lemma_next_cell(s: Search, grid: GridModel, block: int)
    requires
        on_course(s, grid, block),
    ensures
        cursor_fits(move_cursor(s.cursor, s.direction, block * block), block * block),
        cursor_index(move_cursor(s.cursor, s.direction, block * block), block * block) == if s.direction
            == Direction::Forward {
            cursor_index(s.cursor, block * block) + 1
        } else {
            cursor_index(s.cursor, block * block) - 1
        },
        -1 <= cursor_index(s.cursor, block * block) < block * block * (block * block),
        cursor_position(move_cursor(s.cursor, s.direction, block * block)) matches Some(p) ==> {
            &&& on_grid(p, block * block)
            &&& scan_index(p, block * block) == cursor_index(
                move_cursor(s.cursor, s.direction, block * block),
                block * block,
            )
            &&& state_at(s.grid, p).is_fixed() <==> state_at(grid, p).is_fixed()
            &&& state_at(s.grid, p) is Empty ==> s.direction == Direction::Forward
            &&& state_at(s.grid, p) is Guess ==> s.direction == Direction::Backward
        },
        cursor_position(move_cursor(s.cursor, s.direction, block * block)) is None ==> cursor_index(
            move_cursor(s.cursor, s.direction, block * block),
            block * block,
        ) == if s.direction == Direction::Forward {
            block * block * (block * block)
        } else {
            -1
        },
{
    let side = block * block;
    lemma_move_index(s.cursor, s.direction, side);
    match s.cursor {
        Cursor::AtCell(x, y) => {
            lemma_places(side, (x, y), (x, y));
        },
        _ => {},
    }
    if let Some(p) = cursor_position(move_cursor(s.cursor, s.direction, side)) {
        assert(settled(s, grid, p, block));
        assert(ready(state_at(grid, p), side));
        lemma_places(side, p, p);
    }
}

/// A search on course that walks off the grid behind the last cell has
/// found a solution.
pub proof fn lemma_step_success(s: Search, grid: GridModel, block: int)
    requires
        on_course(s, grid, block),
        s.direction == Direction::Forward,
        cursor_position(move_cursor(s.cursor, s.direction, block * block)) is None,
    ensures
        is_solution(s.grid, grid, block),
        keeps_fixed(grid, s.grid, block * block),
{
    let side = block * block;
    lemma_next_cell(s, grid, block);
    lemma_course_consistent(s, grid, block);
    assert forall|p: (int, int)| on_grid(p, side) implies ((#[trigger] value_at(
        s.grid,
        p,
    )) matches Some(v) && 1 <= v <= side) by {
        lemma_places(side, p, p);
        lemma_course_values(s, grid, p, block);
    }
    assert forall|p: (int, int)| on_grid(p, side) && state_at(grid, p).is_fixed() implies 
        #[trigger] value_at(s.grid, p) == value_at(grid, p) by {
        assert(settled(s, grid, p, block));
    }
    assert forall|p: (int, int)| on_grid(p, side) && state_at(grid, p).is_fixed() implies 
        #[trigger] state_at(s.grid, p) == state_at(grid, p) by {
        assert(settled(s, grid, p, block));
    }
}

/// A search on course that walks off the grid before the first cell has
/// shown that there is no solution.
pub proof fn lemma_step_failure(s: Search, grid: GridModel, solution: GridModel, block: int)
    requires
        on_course(s, grid, block),
        s.direction == Direction::Backward,
        cursor_position(move_cursor(s.cursor, s.direction, block * block)) is None,
    ensures
        !is_solution(solution, grid, block),
{
    let side = block * block;
    lemma_next_cell(s, grid, block);
    if is_solution(solution, grid, block) {
        assert(not_passed(s, solution, block));
        assert forall|q: (int, int)| on_grid(q, side) && scan_index(q, side) < 0 implies 
            #[trigger] value_at(solution, q) == value_at(s.grid, q) by {
            lemma_places(side, q, q);
        }
    }
}

/// A search on course stays on course when it passes a given or solved cell.
pub proof fn lemma_step_fixed(s: Search, grid: GridModel, p: (int, int), block: int)
    requires
        on_course(s, grid, block),
        cursor_position(move_cursor(s.cursor, s.direction, block * block)) == Some(p),
        state_at(s.grid, p).is_fixed(),
    ensures
        on_course(search_step(s, block), grid, block),
        search_step(s, block).grid == s.grid,
{
    let side = block * block;
    let t = search_step(s, block);
    let moved = move_cursor(s.cursor, s.direction, side);
    lemma_next_cell(s, grid, block);
    assert(t == Search { cursor: moved, ..s });
    assert forall|q: (int, int)| on_grid(q, side) implies #[trigger] settled(t, grid, q, block) by {
        assert(settled(s, grid, q, block));
        lemma_places(side, p, q);
    }
    assert forall|solution: GridModel| is_solution(solution, grid, block) implies #[trigger] not_passed(
        t,
        solution,
        block,
    ) by {
        assert(not_passed(s, solution, block));
        assert(settled(s, grid, p, block));
        assert(value_at(solution, p) == value_at(grid, p));
        assert forall|q: (int, int)|
            on_grid(q, side) && visited(t, scan_index(q, side), side) implies #[trigger] not_behind(
            t.grid,
            solution,
            q,
            side,
        ) by {
            lemma_places(side, p, q);
            if q != p {
                assert(not_behind(s.grid, solution, q, side));
            }
        }
        if s.direction == Direction::Backward {
            if agrees_before(s.grid, solution, scan_index(p, side), side) {
                assert forall|q: (int, int)|
                    on_grid(q, side) && scan_index(q, side) < cursor_index(
                        s.cursor,
                        side,
                    ) implies #[trigger] value_at(solution, q) == value_at(s.grid, q) by {
                    lemma_places(side, p, q);
                }
            }
        }
    }
}

/// What a cell that a search on course finds empty can take, is what no
/// cell settled before blocks.
pub proof fn lemma_course_candidates(s: Search, grid: GridModel, p: (int, int), block: int)
    requires
        on_course(s, grid, block),
        cursor_position(move_cursor(s.cursor, s.direction, block * block)) == Some(p),
        state_at(s.grid, p) is Empty,
    ensures
        candidates(s.grid, p, block) matches Ok(possibility) && possibility.len() == block * block
            && (forall|w: int|
            1 <= w <= block * block ==> (#[trigger] allows(possibility, w) <==> !blocked(
                s.grid,
                grid,
                p,
                w,
                block,
            ))),
{
    let side = block * block;
    lemma_next_cell(s, grid, block);
    lemma_course_consistent(s, grid, block);
    lemma_candidates(s.grid, p, block);
    match candidates(s.grid, p, block) {
        Err(c) => {
            let (a, b) = choose|a: (int, int), b: (int, int)|
                #![trigger value_at(s.grid, a), value_at(s.grid, b)]
                on_grid(a, side) && on_grid(b, side) && peers(a, b, block) && a != p && b != p
                    && value_at(s.grid, a) is Some && value_at(s.grid, a) == value_at(s.grid, b);
            assert(value_at(s.grid, a) != value_at(s.grid, b));
        },
        Ok(possibility) => {
            assert forall|w: int| 1 <= w <= side implies (#[trigger] allows(possibility, w)
                <==> !blocked(s.grid, grid, p, w, block)) by {
                if !allows(possibility, w) {
                    let q = choose|q: (int, int)|
                        on_grid(q, side) && peers(p, q, block) && !(value_at(s.grid, q) != Some(w));
                    lemma_course_values(s, grid, q, block);
                    lemma_places(side, p, q);
                    assert(earlier(grid, p, q, side));
                    assert(value_at(s.grid, q) == Some(w));
                    assert(blocked(s.grid, grid, p, w, block));
                }
                if blocked(s.grid, grid, p, w, block) {
                    let q = choose|q: (int, int)|
                        #![trigger value_at(s.grid, q)]
                        on_grid(q, side) && peers(p, q, block) && earlier(grid, p, q, side)
                            && value_at(s.grid, q) == Some(w);
                    assert(!allows(possibility, w));
                }
            }
        },
    }
}

/// The cells other than `p` are as the search has left them, after a step
/// that has changed at most the cell at `p`.
pub proof fn lemma_others_settled(
    s: Search,
    t: Search,
    grid: GridModel,
    p: (int, int),
    q: (int, int),
    block: int,
)
    requires
        on_course(s, grid, block),
        on_grid(p, block * block),
        on_grid(q, block * block),
        q != p,
        !state_at(grid, p).is_fixed(),
        t.grid == s.grid || t.grid == with_state(s.grid, p, state_at(t.grid, p)),
        scan_index(q, block * block) != scan_index(p, block * block) ==> (visited(
            t,
            scan_index(q, block * block),
            block * block,
        ) <==> visited(s, scan_index(q, block * block), block * block)),
        visited(t, scan_index(q, block * block), block * block) ==> scan_index(q, block * block)
            <= scan_index(p, block * block),
    ensures
        settled(t, grid, q, block),
        state_at(t.grid, q) == state_at(s.grid, q),
{
    let side = block * block;
    lemma_places(side, p, q);
    lemma_with_state(s.grid, side, p, state_at(t.grid, p));
    assert(settled(s, grid, q, block));
    if !state_at(grid, q).is_fixed() && visited(t, scan_index(q, side), side) {
        let guess = state_at(s.grid, q)->Guess_0;
        assert forall|w: int| 1 <= w <= side implies (#[trigger] allows(guess.possibility, w)
            <==> !blocked(t.grid, grid, q, w, block)) by {
            if t.grid != s.grid {
                lemma_blocked_frame(s.grid, grid, p, state_at(t.grid, p), q, w, block);
            }
        }
    }
}

/// An earlier cell is no further behind a solution after a step that has
/// changed at most the cell at `p`.
pub proof fn lemma_others_not_behind(
    s: Search,
    t: Search,
    grid: GridModel,
    solution: GridModel,
    p: (int, int),
    q: (int, int),
    block: int,
)
    requires
        on_course(s, grid, block),
        is_solution(solution, grid, block),
        on_grid(p, block * block),
        on_grid(q, block * block),
        q != p,
        t.grid == s.grid || t.grid == with_state(s.grid, p, state_at(t.grid, p)),
        visited(s, scan_index(q, block * block), block * block),
        scan_index(q, block * block) <= scan_index(p, block * block),
    ensures
        not_behind(t.grid, solution, q, block * block),
{
    let side = block * block;
    lemma_places(side, p, q);
    lemma_with_state(s.grid, side, p, state_at(t.grid, p));
    assert(not_passed(s, solution, block));
    assert(not_behind(s.grid, solution, q, side));
    if t.grid != s.grid {
        lemma_agrees_frame(s.grid, solution, p, state_at(t.grid, p), scan_index(q, side), side);
    }
}

/// A search on course stays on course when it comes to an empty cell: it
/// begins a guess there, or turns back.
pub proof fn lemma_step_empty(s: Search, grid: GridModel, p: (int, int), block: int)
    requires
        on_course(s, grid, block),
        cursor_position(move_cursor(s.cursor, s.direction, block * block)) == Some(p),
        state_at(s.grid, p) is Empty,
    ensures
        on_course(search_step(s, block), grid, block),
        keeps_fixed(s.grid, search_step(s, block).grid, block * block),
{
    let side = block * block;
    let t = search_step(s, block);
    let moved = move_cursor(s.cursor, s.direction, side);
    lemma_next_cell(s, grid, block);
    lemma_course_candidates(s, grid, p, block);
    let possibility = candidates(s.grid, p, block)->Ok_0;
    lemma_next_allowed(possibility, 0);
    lemma_places(side, p, p);
    match next_allowed(possibility, 0) {
        Some(v) => {
            let guess = GuessModel { number: Some(v), possibility };
            let state = CellModel::Guess(guess);
            assert(t == Search {
                grid: with_state(s.grid, p, state),
                cursor: moved,
                direction: Direction::Forward,
                outcome: None,
            });
            lemma_with_state(s.grid, side, p, state);
            assert forall|q: (int, int)| on_grid(q, side) implies #[trigger] settled(
                t,
                grid,
                q,
                block,
            ) by {
                lemma_places(side, p, q);
                if q == p {
                    assert forall|w: int| 1 <= w <= side implies (#[trigger] allows(possibility, w)
                        <==> !blocked(t.grid, grid, p, w, block)) by {
                        lemma_blocked_frame(s.grid, grid, p, state, p, w, block);
                    }
                } else {
                    lemma_others_settled(s, t, grid, p, q, block);
                }
            }
            assert forall|solution: GridModel| is_solution(solution, grid, block) implies 
                #[trigger] not_passed(t, solution, block) by {
                assert forall|q: (int, int)|
                    on_grid(q, side) && visited(t, scan_index(q, side), side) implies 
                    #[trigger] not_behind(t.grid, solution, q, side) by {
                    lemma_places(side, p, q);
                    if q != p {
                        lemma_others_not_behind(s, t, grid, solution, p, q, block);
                    } else if agrees_before(t.grid, solution, scan_index(p, side), side) {
                        lemma_agrees_frame(s.grid, solution, p, state, scan_index(p, side), side);
                        lemma_solution_fits(s, grid, solution, p, block);
                        let w = value_at(solution, p)->0;
                        assert(allows(possibility, w));
                    }
                }
            }
            assert forall|q: (int, int)| on_grid(q, side) && state_at(s.grid, q).is_fixed() implies 
                #[trigger] state_at(t.grid, q) == state_at(s.grid, q) by {}
        },
        None => {
            assert(t == Search { cursor: moved, direction: Direction::Backward, ..s });
            assert forall|q: (int, int)| on_grid(q, side) implies #[trigger] settled(
                t,
                grid,
                q,
                block,
            ) by {
                lemma_places(side, p, q);
                assert(settled(s, grid, q, block));
            }
            assert forall|solution: GridModel| is_solution(solution, grid, block) implies 
                #[trigger] not_passed(t, solution, block) by {
                assert(not_passed(s, solution, block));
                assert forall|q: (int, int)|
                    on_grid(q, side) && visited(t, scan_index(q, side), side) implies 
                    #[trigger] not_behind(t.grid, solution, q, side) by {
                    assert(not_behind(s.grid, solution, q, side));
                }
                if agrees_before(s.grid, solution, scan_index(p, side), side) {
                    lemma_solution_fits(s, grid, solution, p, block);
                    let w = value_at(solution, p)->0;
                    assert(allows(possibility, w));
                }
            }
        },
    }
}

/// A search on course stays on course when it comes back to a guess: it
/// tries the next number there, or empties the cell and goes back further.
pub proof fn lemma_step_guess(s: Search, grid: GridModel, p: (int, int), block: int)
    requires
        on_course(s, grid, block),
        cursor_position(move_cursor(s.cursor, s.direction, block * block)) == Some(p),
        state_at(s.grid, p) is Guess,
    ensures
        on_course(search_step(s, block), grid, block),
        keeps_fixed(s.grid, search_step(s, block).grid, block * block),
{
    let side = block * block;
    let t = search_step(s, block);
    let moved = move_cursor(s.cursor, s.direction, side);
    lemma_next_cell(s, grid, block);
    lemma_places(side, p, p);
    assert(settled(s, grid, p, block));
    let guess = state_at(s.grid, p)->Guess_0;
    let tried = guess.number->0;
    lemma_next_allowed(guess.possibility, tried);
    let state = state_at(t.grid, p);
    assert(t.grid == with_state(s.grid, p, state)) by {
        lemma_with_state(s.grid, side, p, CellModel::Empty(None));
        if let Some(v) = next_try(guess) {
            lemma_with_state(
                s.grid,
                side,
                p,
                CellModel::Guess(GuessModel { number: Some(v), possibility: guess.possibility }),
            );
        }
    }
    lemma_with_state(s.grid, side, p, state);
    assert forall|q: (int, int)| on_grid(q, side) implies #[trigger] settled(t, grid, q, block) by {
        lemma_places(side, p, q);
        if q == p {
            if let Some(v) = next_try(guess) {
                assert forall|w: int| 1 <= w <= side implies (#[trigger] allows(
                    guess.possibility,
                    w,
                ) <==> !blocked(t.grid, grid, p, w, block)) by {
                    lemma_blocked_frame(s.grid, grid, p, state, p, w, block);
                }
            }
        } else {
            lemma_others_settled(s, t, grid, p, q, block);
        }
    }
    assert forall|solution: GridModel| is_solution(solution, grid, block) implies #[trigger] not_passed(
        t,
        solution,
        block,
    ) by {
        assert(not_passed(s, solution, block));
        assert forall|q: (int, int)|
            on_grid(q, side) && visited(t, scan_index(q, side), side) && q != p implies 
            #[trigger] not_behind(t.grid, solution, q, side) by {
            lemma_places(side, p, q);
            lemma_others_not_behind(s, t, grid, solution, p, q, block);
        }
        lemma_agrees_frame(s.grid, solution, p, state, scan_index(p, side), side);
        if agrees_before(s.grid, solution, scan_index(p, side), side) {
            lemma_solution_fits(s, grid, solution, p, block);
            let w = value_at(solution, p)->0;
            assert(allows(guess.possibility, w));
            assert(not_behind(s.grid, solution, p, side));
            assert(w >= tried);
            if w == tried {
                assert forall|q: (int, int)|
                    on_grid(q, side) && scan_index(q, side) < cursor_index(
                        s.cursor,
                        side,
                    ) implies #[trigger] value_at(solution, q) == value_at(s.grid, q) by {
                    lemma_places(side, p, q);
                }
            }
            assert(w > tried);
        }
    }
    assert forall|q: (int, int)| on_grid(q, side) && state_at(s.grid, q).is_fixed() implies 
        #[trigger] state_at(t.grid, q) == state_at(s.grid, q) by {}
}

/// One step keeps a search on course, and a step that ends it ends it
/// rightly: with success on a solution, with failure where there is no
/// solution, and never with a conflict.
pub proof fn lemma_step(s: Search, grid: GridModel, block: int)
    requires
        on_course(s, grid, block),
    ensures
        keeps_fixed(s.grid, search_step(s, block).grid, block * block),
        match search_step(s, block).outcome {
            None => on_course(search_step(s, block), grid, block),
            Some(Ok(())) => is_solution(search_step(s, block).grid, grid, block),
            Some(Err(SolveFailure::ImpossibleConfiguration)) => unsolvable(grid, block),
            Some(Err(SolveFailure::Conflict(_))) => false,
        },
{
    let side = block * block;
    lemma_next_cell(s, grid, block);
    match cursor_position(move_cursor(s.cursor, s.direction, side)) {
        None => {
            if s.direction == Direction::Forward {
                lemma_step_success(s, grid, block);
            } else {
                assert forall|solution: GridModel| !is_solution(solution, grid, block) by {
                    lemma_step_failure(s, grid, solution, block);
                }
            }
        },
        Some(p) => {
            if state_at(s.grid, p) is Empty {
                lemma_step_empty(s, grid, p, block);
            } else if state_at(s.grid, p) is Guess {
                lemma_step_guess(s, grid, p, block);
            } else {
                lemma_step_fixed(s, grid, p, block);
            }
        },
    }
}

/// A search begins on course on every grid that it can take.
pub proof fn lemma_start_on_course(grid: GridModel, block: int)
    requires
        searchable(grid, block),
    ensures
        on_course(search_start(grid), grid, block),
{
    let side = block * block;
    let s = search_start(grid);
    assert forall|p: (int, int)| on_grid(p, side) implies #[trigger] settled(s, grid, p, block) by {
        lemma_places(side, p, p);
        assert(ready(state_at(grid, p), side));
    }
    assert forall|solution: GridModel| is_solution(solution, grid, block) implies #[trigger] not_passed(
        s,
        solution,
        block,
    ) by {
        assert forall|q: (int, int)|
            on_grid(q, side) && visited(s, scan_index(q, side), side) implies #[trigger] not_behind(
            s.grid,
            solution,
            q,
            side,
        ) by {
            lemma_places(side, q, q);
        }
    }
}

/// A search that has not ended after `n` steps is on course, and has kept
/// the given and solved cells; one that has ended has ended rightly.
pub proof fn lemma_run(grid: GridModel, n: nat, block: int)
    requires
        searchable(grid, block),
    ensures
        keeps_fixed(grid, search_run(search_start(grid), n, block).grid, block * block),
        match search_run(search_start(grid), n, block).outcome {
            None => on_course(search_run(search_start(grid), n, block), grid, block),
            Some(Ok(())) => is_solution(search_run(search_start(grid), n, block).grid, grid, block),
            Some(Err(SolveFailure::ImpossibleConfiguration)) => unsolvable(grid, block),
            Some(Err(SolveFailure::Conflict(_))) => false,
        },
    decreases n,
{
    if n == 0 {
        lemma_start_on_course(grid, block);
    } else {
        lemma_run(grid, (n - 1) as nat, block);
        let before = search_run(search_start(grid), (n - 1) as nat, block);
        if before.outcome is None {
            lemma_step(before, grid, block);
            let after = search_step(before, block);
            assert forall|p: (int, int)|
                on_grid(p, block * block) && state_at(grid, p).is_fixed() implies #[trigger] state_at(
                after.grid,
                p,
            ) == state_at(grid, p) by {
                assert(state_at(before.grid, p) == state_at(grid, p));
            }
        }
    }
}

/// The search is sound and complete. On a grid that it can take, a search
/// that ends with success has filled the grid to a solution and has kept
/// what was given or solved; it gives up only where the grid has no
/// solution; and it never ends with a conflict.
pub proof fn lemma_search_sound_and_complete(grid: GridModel, n: nat, block: int)
    requires
        searchable(grid, block),
        search_run(search_start(grid), n, block).outcome is Some,
    ensures
        keeps_fixed(grid, search_run(search_start(grid), n, block).grid, block * block),
        match search_run(search_start(grid), n, block).outcome->0 {
            Ok(()) => is_solution(search_run(search_start(grid), n, block).grid, grid, block),
            Err(SolveFailure::ImpossibleConfiguration) => unsolvable(grid, block),
            Err(SolveFailure::Conflict(_)) => false,
        },
{
    lemma_run(grid, n, block);
}

/// Where a grid has exactly one solution, the search finds it: a search
/// that has ended has ended with success, and every cell holds the number
/// that it holds in the solution.
pub proof fn lemma_search_finds_the_solution(
    grid: GridModel,
    solution: GridModel,
    n: nat,
    block: int,
)
    requires
        searchable(grid, block),
        is_solution(solution, grid, block),
        forall|other: GridModel, p: (int, int)|
            is_solution(other, grid, block) && on_grid(p, block * block) ==> #[trigger] value_at(
                other,
                p,
            ) == value_at(solution, p),
        search_run(search_start(grid), n, block).outcome is Some,
    ensures
        search_run(search_start(grid), n, block).outcome == Some(Ok::<(), SolveFailure>(())),
        forall|p: (int, int)|
            on_grid(p, block * block) ==> #[trigger] value_at(
                search_run(search_start(grid), n, block).grid,
                p,
            ) == value_at(solution, p),
{
    lemma_run(grid, n, block);
    let end = search_run(search_start(grid), n, block);
    match end.outcome->0 {
        Ok(u) => {
            assert(is_solution(end.grid, grid, block));
            assert(u == ());
            assert(end.outcome == Some(Ok::<(), SolveFailure>(())));
        },
        Err(SolveFailure::ImpossibleConfiguration) => {
            assert(end.outcome == Some(
                Err::<(), SolveFailure>(SolveFailure::ImpossibleConfiguration),
            ));
            assert(!is_solution(solution, grid, block));
        },
        Err(SolveFailure::Conflict(c)) => {
            assert(end.outcome == Some(Err::<(), SolveFailure>(SolveFailure::Conflict(c))));
        },
    }
}

} // verus!
