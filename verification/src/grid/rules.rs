//! The rules of the game: which cells stand in each other's way, and what
//! it is to solve a grid.

use vstd::prelude::*;
use crate::cell::CellModel;
use crate::grid::{on_grid, state_at, well_shaped, GridModel};

verus! {

/// The number that the cell at `p` holds in `grid`, if it holds one.
pub open spec fn value_at(grid: GridModel, p: (int, int)) -> Option<int> {
    state_at(grid, p).value()
}

/// `p` and `q` are two cells of one row, of one column or of one block.
pub open spec fn peers(p: (int, int), q: (int, int), block: int) -> bool {
    p != q && (p.1 == q.1 || p.0 == q.0 || (p.0 / block == q.0 / block && p.1 / block == q.1
        / block))
}

/// No two cells of one row, of one column or of one block hold the same
/// number.
pub open spec fn consistent(grid: GridModel, block: int) -> bool {
    forall|p: (int, int), q: (int, int)|
        #![trigger value_at(grid, p), value_at(grid, q)]
        on_grid(p, block * block) && on_grid(q, block * block) && peers(p, q, block) && value_at(
            grid,
            p,
        ) is Some ==> value_at(grid, p) != value_at(grid, q)
}

/// Every number that a cell of `grid` holds is a number of the grid.
pub open spec fn in_range(grid: GridModel, side: int) -> bool {
    forall|p: (int, int)|
        on_grid(p, side) ==> ((#[trigger] value_at(grid, p)) matches Some(v) ==> 1 <= v <= side)
}

/// Every cell of `grid` holds a number of the grid.
pub open spec fn filled(grid: GridModel, side: int) -> bool {
    forall|p: (int, int)|
        on_grid(p, side) ==> ((#[trigger] value_at(grid, p)) matches Some(v) && 1 <= v <= side)
}

/// A cell as a solver can take it: given or solved with a number of the
/// grid, or empty without a number. A cell with a guess is in the middle of
/// a search.
pub open spec fn ready(state: CellModel, side: int) -> bool {
    match state {
        CellModel::Given(v) | CellModel::SolvedDeduction(v) | CellModel::SolvedBackTrace(v) => 1
            <= v <= side,
        CellModel::Empty(_) => state.value() is None,
        CellModel::Guess(_) => false,
    }
}

/// Every cell of `grid` is given or solved with a number of the grid, or
/// empty without a number.
pub open spec fn all_ready(grid: GridModel, block: int) -> bool {
    &&& 0 < block
    &&& well_shaped(grid, block * block)
    &&& forall|p: (int, int)|
        on_grid(p, block * block) ==> ready(#[trigger] state_at(grid, p), block * block)
}

/// A grid as a search can take it: every cell is ready, and no two peers
/// hold the same number.
pub open spec fn searchable(grid: GridModel, block: int) -> bool {
    all_ready(grid, block) && consistent(grid, block)
}

/// Every cell of `grid` that holds a number is given.
pub open spec fn hints_only(grid: GridModel, side: int) -> bool {
    forall|q: (int, int)|
        on_grid(q, side) && (#[trigger] value_at(grid, q)) is Some ==> state_at(grid, q) is Given
}

/// Every cell of `region` that holds a number is given.
pub open spec fn given_only(grid: GridModel, region: Seq<(int, int)>) -> bool {
    forall|q: (int, int)|
        region.contains(q) && (#[trigger] value_at(grid, q)) is Some ==> state_at(grid, q) is Given
}

/// `solution` solves `grid`: every cell holds a number of the grid, the
/// given and solved cells of `grid` hold the numbers that they hold in
/// `grid`, and no two peers hold the same number.
pub open spec fn is_solution(solution: GridModel, grid: GridModel, block: int) -> bool {
    &&& filled(solution, block * block)
    &&& forall|p: (int, int)|
        on_grid(p, block * block) && state_at(grid, p).is_fixed() ==> #[trigger] value_at(
            solution,
            p,
        ) == value_at(grid, p)
    &&& consistent(solution, block)
}

/// `found` is the one solution of `grid`: it solves the grid, and every
/// solution of the grid holds the same numbers.
pub open spec fn only_solution(found: GridModel, grid: GridModel, block: int) -> bool {
    &&& is_solution(found, grid, block)
    &&& forall|solution: GridModel, p: (int, int)|
        is_solution(solution, grid, block) && on_grid(p, block * block) ==> #[trigger] value_at(
            solution,
            p,
        ) == value_at(found, p)
}

/// `grid` has no solution.
pub open spec fn unsolvable(grid: GridModel, block: int) -> bool {
    forall|solution: GridModel| !is_solution(solution, grid, block)
}

/// `after` has the given and solved cells of `grid` as they are in `grid`.
pub open spec fn keeps_fixed(grid: GridModel, after: GridModel, side: int) -> bool {
    forall|p: (int, int)|
        on_grid(p, side) && state_at(grid, p).is_fixed() ==> #[trigger] state_at(after, p)
            == state_at(grid, p)
}

} // verus!
