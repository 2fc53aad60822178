use console::strip_ansi_codes;
use sudoku::cell::{Cell, CellGuess, CellNumber, CellPossibilities, CellState};
use sudoku::grid::{CellPosition, Sudoku};

#[test]
fn the_smallest_grid_as_text() {
    assert_eq!(
        Sudoku::<1>::new([[1]]).to_string(),
        "╔═══╗\n║ 1 ║\n╚═══╝\n"
    );
    assert_eq!(
        Sudoku::<1>::new([[0]]).to_string(),
        "╔═══╗\n║   ║\n╚═══╝\n"
    );
    assert_eq!(Sudoku::<0>::new([]).to_string(), "╔═══╗\n");
}

#[test]
fn a_grid_of_four_blocks_as_text() {
    let grid = Sudoku::<2>::new([[1, 0, 0, 4], [0, 0, 0, 0], [0, 3, 0, 0], [0, 0, 0, 2]]);
    let expected = "\
╔═══╤═══╦═══╤═══╗
║ 1 │   ║   │ 4 ║
╟───┼───╫───┼───╢
║   │   ║   │   ║
╠═══╪═══╬═══╪═══╣
║   │ 3 ║   │   ║
╟───┼───╫───┼───╢
║   │   ║   │ 2 ║
╚═══╧═══╩═══╧═══╝
";
    assert_eq!(grid.to_string(), expected);
    assert_eq!(grid.render(&grid.plain_numbers(), false), expected);
}

#[test]
fn a_grid_in_a_plain_frame() {
    let grid = Sudoku::<2>::new([[1, 0, 0, 4], [0, 0, 0, 0], [0, 3, 0, 0], [0, 0, 0, 2]]);
    let expected = "\
+---+---+---+---+
| 1 |   |   | 4 |
+---+---+---+---+
|   |   |   |   |
+---+---+---+---+
|   | 3 |   |   |
+---+---+---+---+
|   |   |   | 2 |
+---+---+---+---+
";
    assert_eq!(grid.render(&grid.plain_numbers(), true), expected);
    assert_eq!(Sudoku::<0>::new([]).render(&Vec::new(), true), "+\n");
}

#[test]
fn numbers_are_shown_as_painted() {
    let grid = Sudoku::<1>::new([[1]]);
    let painted = vec![String::from("<one>")];
    assert_eq!(
        grid.render(&painted, false),
        "╔═══╗\n║ <one> ║\n╚═══╝\n"
    );
    assert_eq!(grid.plain_numbers(), vec![String::from("1")]);
    assert_eq!(
        Sudoku::<1>::new([[0]]).plain_numbers(),
        vec![String::new()]
    );
}

#[test]
fn numbers_are_set_to_the_right() {
    let mut input = [[0; 16]; 16];
    input[0][0] = 7;
    input[0][1] = 16;
    let mut grid = Sudoku::<4>::new(input);
    let position = CellPosition::new_from_number(0, 2).unwrap();
    *grid.get_cell_mut(position) =
        Cell::new(CellState::SolvedDeduction(CellNumber::new(10).unwrap()));
    let text = grid.to_string();
    let lines: Vec<&str> = text.lines().collect();
    assert_eq!(lines.len(), 16 * 2 + 1);
    assert!(lines[0].starts_with("╔════╤════╤════╤════╦════"));
    assert!(lines[1].starts_with("║  7 │ 16 │ 10 │    ║    │"));
    assert_eq!(lines[1].chars().count(), 16 * 5 + 1);
    assert!(lines[32].ends_with("╧════╝"));
}

#[test]
fn coloured_text_is_the_plain_text_with_marks() {
    let mut grid = Sudoku::<2>::new([[1, 0, 0, 4], [0, 0, 0, 0], [0, 3, 0, 0], [0, 0, 0, 2]]);
    let position = CellPosition::new_from_number(1, 1).unwrap();
    *grid.get_cell_mut(position) =
        Cell::new(CellState::SolvedDeduction(CellNumber::new(2).unwrap()));
    let position = CellPosition::new_from_number(1, 2).unwrap();
    let mut only_four = CellPossibilities::<2>::new_no_possibility();
    only_four.set(CellNumber::new(4).unwrap(), true);
    *grid.get_cell_mut(position) = Cell::new(CellState::Guess(CellGuess::new(only_four).unwrap()));
    for basic in [false, true] {
        let coloured = grid.to_styled_string(basic);
        assert_eq!(
            strip_ansi_codes(&coloured),
            grid.render(&grid.plain_numbers(), basic)
        );
        // each mark is one of the three colours or the end, and they come in pairs
        let marks = coloured.matches('\u{1b}').count();
        assert_eq!(marks % 2, 0);
        assert_eq!(
            coloured.matches("\u{1b}[0m").count() * 2,
            marks
        );
        assert_eq!(
            coloured.matches("\u{1b}[37m").count()
                + coloured.matches("\u{1b}[32m").count()
                + coloured.matches("\u{1b}[38;5;9m").count(),
            marks / 2
        );
        assert!(marks == 0 || marks == 12);
    }
}
