use sudoku::cell::{Cell, CellGuess, CellNumber, CellPossibilities, CellState};
use sudoku::grid::{
    CellPosition, Column, Row, SolveError, Square, Strength, Sudoku, VerificationError,
    VerificationResult,
};

const CLASSIC: [[usize; 9]; 9] = [
    [3, 0, 0, 6, 0, 0, 0, 9, 0],
    [0, 4, 0, 0, 2, 0, 0, 5, 0],
    [0, 8, 0, 0, 7, 0, 1, 6, 0],
    [9, 0, 0, 3, 0, 4, 7, 0, 0],
    [0, 5, 0, 0, 8, 0, 0, 2, 0],
    [0, 0, 1, 9, 0, 0, 0, 0, 6],
    [0, 2, 7, 0, 3, 0, 0, 4, 0],
    [0, 9, 0, 0, 6, 0, 0, 1, 0],
    [0, 3, 0, 0, 0, 5, 0, 0, 8],
];

const CLASSIC_SOLVED: [[usize; 9]; 9] = [
    [3, 1, 5, 6, 4, 8, 2, 9, 7],
    [7, 4, 6, 1, 2, 9, 8, 5, 3],
    [2, 8, 9, 5, 7, 3, 1, 6, 4],
    [9, 6, 2, 3, 1, 4, 7, 8, 5],
    [4, 5, 3, 7, 8, 6, 9, 2, 1],
    [8, 7, 1, 9, 5, 2, 4, 3, 6],
    [6, 2, 7, 8, 3, 1, 5, 4, 9],
    [5, 9, 8, 4, 6, 7, 3, 1, 2],
    [1, 3, 4, 2, 9, 5, 6, 7, 8],
];

fn position(x: usize, y: usize) -> CellPosition<3> {
    CellPosition::new_from_number(x, y).unwrap()
}

fn number(n: usize) -> CellNumber<3> {
    CellNumber::new(n).unwrap()
}

fn numbers(grid: &Sudoku<3>) -> Vec<Option<usize>> {
    grid.iter()
        .map(|cell| cell.cell_number().map(|n| n.number()))
        .collect()
}

#[test]
fn a_new_grid_holds_the_numbers_of_its_input() {
    let mut input = CLASSIC;
    input[8][8] = 10;
    input[0][1] = 1000;
    let grid = Sudoku::<3>::new(input);
    for x in 0..9 {
        for y in 0..9 {
            let expected = if (1..=9).contains(&input[x][y]) {
                Cell::new_hint(number(input[x][y]))
            } else {
                Cell::new_empty()
            };
            assert_eq!(grid.get_cell(position(x, y)), &expected);
            assert_eq!(grid[position(x, y)], expected);
        }
    }
    // cells come out column by column of the input
    let listed: Vec<&Cell<3>> = grid.iter().collect();
    assert_eq!(listed.len(), 81);
    assert_eq!(listed[3], grid.get_cell(position(0, 3)));
    assert_eq!(listed[9], grid.get_cell(position(1, 0)));
}

#[test]
fn cells_can_be_replaced() {
    let mut grid = Sudoku::<3>::new(CLASSIC);
    let before = grid.clone();
    *grid.get_cell_mut(position(0, 1)) = Cell::new_hint(number(1));
    assert_eq!(grid.get_cell(position(0, 1)), &Cell::new_hint(number(1)));
    grid[position(0, 2)] = Cell::new_hint(number(5));
    assert_eq!(grid[position(0, 2)], Cell::new_hint(number(5)));
    for x in 0..9 {
        for y in 0..9 {
            if (x, y) != (0, 1) && (x, y) != (0, 2) {
                assert_eq!(grid[position(x, y)], before[position(x, y)]);
            }
        }
    }
}

#[test]
fn verification_tells_complete_from_incomplete() {
    assert_eq!(
        Sudoku::<3>::new(CLASSIC).verify_configuration(),
        Ok(VerificationResult::Incomplete)
    );
    assert_eq!(
        Sudoku::<3>::new(CLASSIC_SOLVED).verify_configuration(),
        Ok(VerificationResult::Complete)
    );
    assert_eq!(
        Sudoku::<3>::new([[0; 9]; 9]).verify_configuration(),
        Ok(VerificationResult::Incomplete)
    );
    assert_eq!(
        Sudoku::<1>::new([[1]]).verify_configuration(),
        Ok(VerificationResult::Complete)
    );
    assert_eq!(
        Sudoku::<1>::new([[0]]).verify_configuration(),
        Ok(VerificationResult::Incomplete)
    );
}

#[test]
fn verification_is_repeatable() {
    let grid = Sudoku::<3>::new(CLASSIC);
    assert_eq!(grid.verify_configuration(), grid.verify_configuration());
    let mut clash = CLASSIC;
    clash[4][0] = 3;
    let grid = Sudoku::<3>::new(clash);
    assert_eq!(grid.verify_configuration(), grid.verify_configuration());
    assert_eq!(grid, Sudoku::<3>::new(clash));
}

#[test]
fn two_equal_hints_in_a_row_are_a_conflict_of_hints() {
    let mut clash = CLASSIC;
    clash[4][0] = 3;
    let grid = Sudoku::<3>::new(clash);
    assert_eq!(
        grid.verify_configuration(),
        Err(VerificationError::HintInconsistency(
            position(0, 0),
            position(4, 0)
        ))
    );
    assert_eq!(
        grid.verify_iterator(&mut Row::new(position(7, 0))),
        Err(VerificationError::HintInconsistency(
            position(0, 0),
            position(4, 0)
        ))
    );
    assert_eq!(
        grid.verify_iterator(&mut Row::new(position(7, 1))),
        Ok(VerificationResult::Incomplete)
    );
}

#[test]
fn conflicts_in_columns_and_blocks_are_found() {
    // same first coordinate, another block
    let mut clash = [[0; 9]; 9];
    clash[2][0] = 7;
    clash[2][8] = 7;
    assert_eq!(
        Sudoku::<3>::new(clash).verify_configuration(),
        Err(VerificationError::HintInconsistency(
            position(2, 0),
            position(2, 8)
        ))
    );
    // same block only
    let mut clash = [[0; 9]; 9];
    clash[3][3] = 2;
    clash[4][5] = 2;
    let grid = Sudoku::<3>::new(clash);
    assert_eq!(
        grid.verify_configuration(),
        Err(VerificationError::HintInconsistency(
            position(3, 3),
            position(4, 5)
        ))
    );
    assert_eq!(
        grid.verify_iterator(&mut Square::new(position(5, 4))),
        Err(VerificationError::HintInconsistency(
            position(3, 3),
            position(4, 5)
        ))
    );
    assert_eq!(
        grid.verify_iterator(&mut Column::new(position(3, 0))),
        Ok(VerificationResult::Incomplete)
    );
}

#[test]
fn the_smallest_number_in_conflict_is_reported() {
    let mut clash = [[0; 9]; 9];
    clash[0][0] = 9;
    clash[1][0] = 9;
    clash[2][0] = 4;
    clash[8][0] = 4;
    assert_eq!(
        Sudoku::<3>::new(clash).verify_configuration(),
        Err(VerificationError::HintInconsistency(
            position(2, 0),
            position(8, 0)
        ))
    );
}

#[test]
fn conflicts_are_named_after_the_firmest_cells() {
    let a = position(0, 0);
    let b = position(1, 0);
    let c = position(2, 0);
    let report = |list: Vec<(CellPosition<3>, Strength)>| {
        Sudoku::<3>::report_verification_error_conflict(&list)
    };
    assert_eq!(
        report(vec![(a, Strength::Given), (b, Strength::Given)]),
        VerificationError::HintInconsistency(a, b)
    );
    assert_eq!(
        report(vec![
            (a, Strength::Solution),
            (b, Strength::Given),
            (c, Strength::Given)
        ]),
        VerificationError::HintInconsistency(b, c)
    );
    assert_eq!(
        report(vec![(a, Strength::Solution), (b, Strength::Given)]),
        VerificationError::WrongSolution(b, a)
    );
    assert_eq!(
        report(vec![(a, Strength::Solution), (b, Strength::Solution)]),
        VerificationError::WrongSolution(a, b)
    );
    assert_eq!(
        report(vec![(a, Strength::Guess), (b, Strength::Given)]),
        VerificationError::WrongGuess(b, a)
    );
    assert_eq!(
        report(vec![(a, Strength::Solution), (b, Strength::Guess)]),
        VerificationError::WrongGuess(b, a)
    );
    assert_eq!(
        report(vec![(a, Strength::Guess), (b, Strength::Guess)]),
        VerificationError::WrongGuess(a, b)
    );
    // the given cell and the guess come first, the clash is still one of solutions
    assert_eq!(
        report(vec![
            (a, Strength::Solution),
            (b, Strength::Guess),
            (c, Strength::Given)
        ]),
        VerificationError::WrongSolution(c, b)
    );
}

#[test]
fn solved_cells_and_guesses_clash_as_such() {
    let mut grid = Sudoku::<3>::new([[0; 9]; 9]);
    grid[position(0, 0)] = Cell::new(CellState::SolvedDeduction(number(5)));
    grid[position(6, 0)] = Cell::new_hint(number(5));
    assert_eq!(
        grid.verify_configuration(),
        Err(VerificationError::WrongSolution(
            position(6, 0),
            position(0, 0)
        ))
    );
    let mut only_five = CellPossibilities::<3>::new_no_possibility();
    only_five[number(5)] = true;
    grid[position(0, 0)] = Cell::new(CellState::Guess(CellGuess::new(only_five.clone()).unwrap()));
    assert_eq!(
        grid.verify_configuration(),
        Err(VerificationError::WrongGuess(
            position(6, 0),
            position(0, 0)
        ))
    );
    // a note that leaves one number counts as a solution
    grid[position(0, 0)] = Cell::new(CellState::Empty(Some(only_five.clone())));
    grid[position(6, 0)] = Cell::new(CellState::SolvedBackTrace(number(5)));
    assert_eq!(
        grid.verify_configuration(),
        Err(VerificationError::WrongSolution(
            position(0, 0),
            position(6, 0)
        ))
    );
    // a guess that tries nothing holds no number
    let mut spent = CellGuess::new(only_five).unwrap();
    spent.next_guess();
    grid[position(0, 0)] = Cell::new(CellState::Guess(spent));
    assert_eq!(
        grid.verify_configuration(),
        Ok(VerificationResult::Incomplete)
    );
}

#[test]
fn possible_numbers_of_a_cell() {
    let grid = Sudoku::<3>::new(CLASSIC);
    // the row of (1, 0) holds 3 and 9, its column 2, 4 and 5, its block 3, 4 and 8
    let numbers: Vec<usize> = grid
        .possibility_cell(position(1, 0))
        .unwrap()
        .into_vec()
        .iter()
        .map(|n| n.number())
        .collect();
    assert_eq!(numbers, vec![1, 6, 7]);
    // the cell itself is not looked at: without its own 3, the peers of (0, 0)
    // hold 4, 6, 8 and 9
    let numbers: Vec<usize> = grid
        .possibility_cell(position(0, 0))
        .unwrap()
        .into_vec()
        .iter()
        .map(|n| n.number())
        .collect();
    assert_eq!(numbers, vec![1, 2, 3, 5, 7]);
    let choices: Vec<usize> = grid
        .hint_choices(position(1, 0))
        .unwrap()
        .iter()
        .map(|n| n.number())
        .collect();
    assert_eq!(choices, vec![1, 6, 7]);
    assert!(grid.hint_choices(position(0, 0)).unwrap().is_empty());
}

#[test]
fn possible_numbers_meet_conflicts() {
    let mut clash = CLASSIC;
    clash[4][0] = 3;
    let grid = Sudoku::<3>::new(clash);
    let conflict = VerificationError::HintInconsistency(position(0, 0), position(4, 0));
    assert_eq!(grid.possibility_cell(position(1, 0)), Err(conflict));
    assert_eq!(grid.hint_choices(position(1, 0)), Err(conflict));
    // seen from one of the two cells there is no conflict left
    assert!(grid.possibility_cell(position(0, 0)).is_ok());
    assert_eq!(
        grid.possibility_iter(&mut Row::new(position(1, 0)), None),
        Err(conflict)
    );
    assert!(grid
        .possibility_iter(&mut Row::new(position(1, 0)), Some(position(4, 0)))
        .is_ok());
}

#[test]
fn regions_of_a_grid() {
    assert_eq!(Sudoku::<3>::rows().len(), 9);
    assert_eq!(Sudoku::<3>::columns().len(), 9);
    assert_eq!(Sudoku::<3>::squares().len(), 9);
    assert_eq!(Sudoku::<3>::rows()[4], Row::new(position(0, 4)));
    assert_eq!(Sudoku::<3>::columns()[4], Column::new(position(4, 0)));
    assert_eq!(Sudoku::<3>::squares()[4], Square::new(position(3, 3)));
    assert_eq!(Sudoku::<3>::squares()[2], Square::new(position(6, 0)));
    assert_eq!(Sudoku::<3>::squares()[3], Square::new(position(0, 3)));
    let (row, column, square) = Sudoku::<3>::row_column_square(position(4, 7));
    assert_eq!(row, Row::new(position(0, 7)));
    assert_eq!(column, Column::new(position(4, 0)));
    assert_eq!(square, Square::new(position(3, 6)));
    let grid = Sudoku::<3>::new(CLASSIC_SOLVED);
    assert_eq!(
        grid.verify_list_iter(Sudoku::<3>::squares()),
        Ok(VerificationResult::Complete)
    );
    let buckets = grid.sorted_cell_by_number(&mut Row::new(position(0, 0)), Some(position(0, 0)));
    assert_eq!(buckets.len(), 9);
    assert!(buckets[2].is_empty());
    assert_eq!(buckets[6], vec![(position(1, 0), Strength::Given)]);
}

#[test]
fn results_combine() {
    let (complete, incomplete) = (VerificationResult::Complete, VerificationResult::Incomplete);
    assert_eq!(complete & complete, complete);
    assert_eq!(complete & incomplete, incomplete);
    assert_eq!(incomplete & complete, incomplete);
    assert_eq!(incomplete & incomplete, incomplete);
    assert_eq!(complete | incomplete, complete);
    assert_eq!(incomplete | incomplete, incomplete);
    assert_eq!(complete ^ incomplete, complete);
    assert_eq!(incomplete ^ complete, complete);
    assert_eq!(complete ^ complete, incomplete);
    assert_eq!(incomplete ^ incomplete, incomplete);
}

#[test]
fn errors_as_text() {
    let a = position(0, 0);
    let b = position(4, 0);
    assert_eq!(
        VerificationError::HintInconsistency(a, b).to_string(),
        "hints are inconsistante between (0, 0) and (4, 0)"
    );
    assert_eq!(
        VerificationError::WrongSolution(a, b).to_string(),
        "wrong solution between (4, 0) and (0, 0)"
    );
    assert_eq!(
        VerificationError::WrongGuess(a, b).to_string(),
        "wrong guess between (4, 0) and (0, 0)"
    );
    assert_eq!(
        SolveError::<3>::ImpossibleConfiguration.to_string(),
        "the given configuration has no solution"
    );
    let wrapped = SolveError::from(VerificationError::WrongGuess(a, b));
    assert_eq!(
        wrapped,
        SolveError::VerificationError(VerificationError::WrongGuess(a, b))
    );
    assert_eq!(wrapped.to_string(), "wrong guess between (4, 0) and (0, 0)");
    assert_eq!(wrapped.source(), Some(VerificationError::WrongGuess(a, b)));
    assert_eq!(SolveError::<3>::ImpossibleConfiguration.source(), None);
}
