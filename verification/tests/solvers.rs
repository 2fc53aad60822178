use sudoku::cell::{Cell, CellNumber, CellState};
use sudoku::grid::{CellPosition, SolveError, Sudoku, VerificationError, VerificationResult};

const CLASSIC: [[usize; 9]; 9] = [
    [3, 0, 0, 6, 0, 0, 0, 9, 0],
    [0, 4, 0, 0, 2, 0, 0, 5, 0],
    [0, 8, 0, 0, 7, 0, 1, 6, 0],
    [9, 0, 0, 3, 0, 4, 7, 0, 0],
    [0, 5, 0, 0, 8, 0, 0, 2, 0],
    [0, 0, 1, 9, 0, 0, 0, 0, 6],
    [0, 2, 7, 0, 3, 0, 0, 4, 0],
    [0, 9, 0, 0, 6, 0, 0, 1, 0],
    [0, 3, 0, 0, 0, 5, 0, 0, 8],
];

const CLASSIC_SOLVED: [[usize; 9]; 9] = [
    [3, 1, 5, 6, 4, 8, 2, 9, 7],
    [7, 4, 6, 1, 2, 9, 8, 5, 3],
    [2, 8, 9, 5, 7, 3, 1, 6, 4],
    [9, 6, 2, 3, 1, 4, 7, 8, 5],
    [4, 5, 3, 7, 8, 6, 9, 2, 1],
    [8, 7, 1, 9, 5, 2, 4, 3, 6],
    [6, 2, 7, 8, 3, 1, 5, 4, 9],
    [5, 9, 8, 4, 6, 7, 3, 1, 2],
    [1, 3, 4, 2, 9, 5, 6, 7, 8],
];

// a puzzle that deduction alone leaves open
const OPEN: [[usize; 4]; 4] = [[1, 0, 0, 0], [0, 0, 0, 0], [0, 0, 0, 0], [0, 0, 0, 2]];

fn position<const S: u8>(x: usize, y: usize) -> CellPosition<S> {
    CellPosition::new_from_number(x, y).unwrap()
}

fn numbers<const S: u8>(grid: &Sudoku<S>) -> Vec<Option<usize>> {
    grid.iter()
        .map(|cell| cell.cell_number().map(|n| n.number()))
        .collect()
}

fn flat<const N: usize>(input: [[usize; N]; N]) -> Vec<Option<usize>> {
    input
        .iter()
        .flat_map(|line| line.iter().map(|n| Some(*n)))
        .collect()
}

fn is_valid<const S: u8>(grid: &Sudoku<S>) -> bool {
    grid.verify_configuration() == Ok(VerificationResult::Complete)
}

fn holds_each_number_once(cells: &[usize]) -> bool {
    let mut sorted = cells.to_vec();
    sorted.sort_unstable();
    sorted == (1..=cells.len()).collect::<Vec<usize>>()
}

fn each_region_holds_each_number_once(grid: &Sudoku<3>) -> bool {
    let at = |x: usize, y: usize| grid[position(x, y)].cell_number().map_or(0, |n| n.number());
    (0..9).all(|i| {
        let row: Vec<usize> = (0..9).map(|x| at(x, i)).collect();
        let column: Vec<usize> = (0..9).map(|y| at(i, y)).collect();
        let block: Vec<usize> = (0..9)
            .map(|k| at((i % 3) * 3 + k % 3, (i / 3) * 3 + k / 3))
            .collect();
        holds_each_number_once(&row)
            && holds_each_number_once(&column)
            && holds_each_number_once(&block)
    })
}

#[test]
fn a_complete_grid_holds_each_number_once_in_each_region() {
    let mut deduced = Sudoku::<3>::new(CLASSIC);
    assert!(!each_region_holds_each_number_once(&deduced));
    assert_eq!(deduced.try_solve(), Ok(VerificationResult::Complete));
    assert!(each_region_holds_each_number_once(&deduced));
    let mut searched = Sudoku::<3>::new([[0; 9]; 9]);
    assert_eq!(searched.solve_back_trace(), Ok(()));
    assert!(each_region_holds_each_number_once(&searched));
}

#[test]
fn deduction_solves_the_classic_puzzle() {
    let mut grid = Sudoku::<3>::new(CLASSIC);
    assert_eq!(grid.try_solve(), Ok(VerificationResult::Complete));
    assert_eq!(numbers(&grid), flat(CLASSIC_SOLVED));
    // hints stay hints, the rest is solved by deduction
    for x in 0..9 {
        for y in 0..9 {
            let number = CellNumber::new(CLASSIC_SOLVED[x][y]).unwrap();
            let expected = if CLASSIC[x][y] == 0 {
                CellState::SolvedDeduction(number)
            } else {
                CellState::Given(number)
            };
            assert_eq!(grid[position(x, y)].state(), &expected);
        }
    }
}

#[test]
fn deduction_stops_where_nothing_is_forced() {
    let mut grid = Sudoku::<2>::new(OPEN);
    let before = grid.clone();
    assert_eq!(grid.try_solve(), Ok(VerificationResult::Incomplete));
    assert_eq!(grid, before);
    let mut empty = Sudoku::<3>::new([[0; 9]; 9]);
    assert_eq!(empty.try_solve(), Ok(VerificationResult::Incomplete));
    assert_eq!(empty, Sudoku::<3>::new([[0; 9]; 9]));
}

#[test]
fn deduction_fills_cell_after_cell() {
    // one cell is forced at once, the next only after it
    let mut grid = Sudoku::<2>::new([[1, 2, 3, 0], [3, 0, 0, 0], [0, 0, 0, 0], [0, 0, 0, 0]]);
    assert_eq!(grid.try_solve(), Ok(VerificationResult::Incomplete));
    assert_eq!(
        grid[position(0, 3)].state(),
        &CellState::SolvedDeduction(CellNumber::new(4).unwrap())
    );
    assert_eq!(
        grid[position(1, 1)].state(),
        &CellState::SolvedDeduction(CellNumber::new(4).unwrap())
    );
}

#[test]
fn deduction_reports_conflicts() {
    let mut clash = CLASSIC;
    clash[4][0] = 3;
    let mut grid = Sudoku::<3>::new(clash);
    assert_eq!(
        grid.try_solve(),
        Err(VerificationError::HintInconsistency(
            position(0, 0),
            position(4, 0)
        ))
    );
}

#[test]
fn deduction_is_deterministic() {
    let mut first = Sudoku::<3>::new(CLASSIC);
    let mut second = first.clone();
    assert_eq!(first.try_solve(), second.try_solve());
    assert_eq!(first, second);
    // a second run changes nothing
    let solved = first.clone();
    assert_eq!(first.try_solve(), Ok(VerificationResult::Complete));
    assert_eq!(first, solved);
}

#[test]
fn search_solves_what_deduction_leaves_open() {
    let mut grid = Sudoku::<2>::new(OPEN);
    assert_eq!(grid.solve_back_trace(), Ok(()));
    assert!(is_valid(&grid));
    // of all solutions the one that comes first, line by line, is found
    assert_eq!(
        numbers(&grid),
        flat([[1, 3, 2, 4], [2, 4, 1, 3], [3, 2, 4, 1], [4, 1, 3, 2]])
    );
    assert_eq!(
        grid[position(0, 0)].state(),
        &CellState::Given(CellNumber::new(1).unwrap())
    );
    assert!(matches!(grid[position(1, 0)].state(), CellState::Guess(_)));
}

#[test]
fn search_is_deterministic() {
    let mut first = Sudoku::<3>::new(CLASSIC);
    let mut second = first.clone();
    assert_eq!(first.solve_back_trace(), second.solve_back_trace());
    assert_eq!(first, second);
    assert_eq!(numbers(&first), flat(CLASSIC_SOLVED));
}

#[test]
fn search_fills_the_empty_grid() {
    let mut grid = Sudoku::<3>::new([[0; 9]; 9]);
    assert_eq!(grid.solve_back_trace(), Ok(()));
    assert!(is_valid(&grid));
    let mut small = Sudoku::<1>::new([[0]]);
    assert_eq!(small.solve_back_trace(), Ok(()));
    assert_eq!(numbers(&small), vec![Some(1)]);
    let mut none = Sudoku::<0>::new([]);
    assert_eq!(none.solve_back_trace(), Ok(()));
    assert_eq!(none.try_solve(), Ok(VerificationResult::Complete));
}

#[test]
fn search_gives_up_where_there_is_no_solution() {
    // the cell at (0, 3) can take nothing, yet no two cells clash
    let input = [[1, 2, 3, 0], [0, 0, 0, 4], [0, 0, 0, 0], [0, 0, 0, 0]];
    let mut grid = Sudoku::<2>::new(input);
    assert_eq!(
        grid.verify_configuration(),
        Ok(VerificationResult::Incomplete)
    );
    assert_eq!(
        grid.solve_back_trace(),
        Err(SolveError::ImpossibleConfiguration)
    );
    // every guess was taken back
    assert_eq!(grid, Sudoku::<2>::new(input));
}

#[test]
fn search_leaves_solved_cells_alone() {
    let mut grid = Sudoku::<3>::new(CLASSIC);
    assert_eq!(grid.try_solve(), Ok(VerificationResult::Complete));
    let solved = grid.clone();
    assert_eq!(grid.solve_back_trace(), Ok(()));
    assert_eq!(grid, solved);
}

#[test]
fn search_stops_at_the_first_conflict() {
    let mut clash = CLASSIC;
    clash[4][0] = 3;
    let mut grid = Sudoku::<3>::new(clash);
    assert_eq!(
        grid.solve_back_trace(),
        Err(SolveError::VerificationError(
            VerificationError::HintInconsistency(position(0, 0), position(4, 0))
        ))
    );
    assert_eq!(grid, Sudoku::<3>::new(clash));
}

#[test]
fn search_finds_the_only_solution() {
    // the classic puzzle has one solution: search and deduction agree on it
    let mut searched = Sudoku::<3>::new(CLASSIC);
    let mut deduced = Sudoku::<3>::new(CLASSIC);
    assert_eq!(searched.solve_back_trace(), Ok(()));
    assert_eq!(deduced.try_solve(), Ok(VerificationResult::Complete));
    assert_eq!(numbers(&searched), numbers(&deduced));
    assert!(is_valid(&searched));
    let cell: &Cell<3> = searched.get_cell(position(0, 0));
    assert_eq!(cell, &Cell::new_hint(CellNumber::new(3).unwrap()));
}

#[test]
fn search_sees_only_the_clashes_around_empty_cells() {
    // two equal hints in a full row of a full block: no empty cell has both as peers
    let input = [[0, 0, 2, 1], [0, 0, 3, 1], [0, 0, 0, 2], [0, 0, 0, 3]];
    let mut grid = Sudoku::<2>::new(input);
    assert_eq!(
        grid.verify_configuration(),
        Err(VerificationError::HintInconsistency(
            position(0, 3),
            position(1, 3)
        ))
    );
    let found = grid.solve_back_trace();
    assert!(found == Ok(()) || found == Err(SolveError::ImpossibleConfiguration));
    assert_eq!(
        grid.verify_configuration(),
        Err(VerificationError::HintInconsistency(
            position(0, 3),
            position(1, 3)
        ))
    );
}
