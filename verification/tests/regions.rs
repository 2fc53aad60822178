use sudoku::error::SetError;
use sudoku::grid::{
    BackTracePositionTracker, CellCoordinate, CellPosition, Column, Direction, Row, Square,
    SudokuIter,
};

fn position(x: usize, y: usize) -> CellPosition<3> {
    CellPosition::new_from_number(x, y).unwrap()
}

fn drain<I: SudokuIter<3>>(mut region: I) -> Vec<(usize, usize)> {
    let mut positions = Vec::new();
    let mut left = region.size_hint().0;
    while let Some(p) = region.next() {
        left -= 1;
        assert_eq!(region.size_hint(), (left, Some(left)));
        positions.push((p.x_usize(), p.y_usize()));
    }
    assert_eq!(left, 0);
    assert_eq!(region.next(), None);
    positions
}

#[test]
fn coordinates_are_bounded() {
    assert!(CellCoordinate::<3>::new(0).is_some());
    assert!(CellCoordinate::<3>::new(8).is_some());
    assert!(CellCoordinate::<3>::new(9).is_none());
    assert!(CellCoordinate::<3>::is_in_bound(8));
    assert!(!CellCoordinate::<3>::is_in_bound(9));
    assert!(CellCoordinate::<0>::new(0).is_none());
    let mut c = CellCoordinate::<3>::new(0).unwrap();
    assert_eq!(c.set_number(2), Ok(()));
    assert_eq!(c.number(), 2);
    assert_eq!(c.set_number(9), Err(SetError::ValueOutOfBounds));
    assert_eq!(c.number(), 2);
    assert_eq!(c.to_string(), "2");
}

#[test]
fn positions_hold_two_coordinates() {
    assert!(CellPosition::<3>::new_from_number(9, 0).is_none());
    assert!(CellPosition::<3>::new_from_number(0, 9).is_none());
    let mut p = position(3, 7);
    assert_eq!(p.x().number(), 3);
    assert_eq!(p.y().number(), 7);
    assert_eq!(p.to_string(), "(3, 7)");
    p.x_mut().set_number(4).unwrap();
    p.y_mut().set_number(0).unwrap();
    assert_eq!(p, position(4, 0));
    assert_eq!(
        CellPosition::new(
            CellCoordinate::<3>::new(4).unwrap(),
            CellCoordinate::new(0).unwrap()
        ),
        p
    );
    assert!(position(1, 2) < position(2, 0));
    assert!(position(1, 2) < position(1, 3));
}

#[test]
fn a_row_runs_over_the_first_coordinate() {
    let expected: Vec<(usize, usize)> = (0..9).map(|x| (x, 5)).collect();
    assert_eq!(drain(Row::new(position(4, 5))), expected);
    assert_eq!(Row::new(position(4, 5)).size_hint(), (9, Some(9)));
}

#[test]
fn a_column_runs_over_the_second_coordinate() {
    let expected: Vec<(usize, usize)> = (0..9).map(|y| (4, y)).collect();
    assert_eq!(drain(Column::new(position(4, 5))), expected);
}

#[test]
fn a_square_runs_line_by_line_over_its_block() {
    let expected = vec![
        (3, 6),
        (4, 6),
        (5, 6),
        (3, 7),
        (4, 7),
        (5, 7),
        (3, 8),
        (4, 8),
        (5, 8),
    ];
    assert_eq!(drain(Square::new(position(4, 8))), expected);
    assert_eq!(drain(Square::new(position(3, 6))), expected);
    assert_eq!(Square::new(position(5, 7)).size_hint(), (9, Some(9)));
}

#[test]
fn regions_of_the_smallest_grid() {
    let only = CellPosition::<1>::new_from_number(0, 0).unwrap();
    let mut row = Row::new(only);
    assert_eq!(row.next(), Some(only));
    assert_eq!(row.next(), None);
    let mut square = Square::new(only);
    assert_eq!(square.size_hint(), (1, Some(1)));
    assert_eq!(square.next(), Some(only));
    assert_eq!(square.size_hint(), (0, Some(0)));
    assert_eq!(square.next(), None);
}

#[test]
fn the_cursor_stops_at_both_ends() {
    let mut cursor = BackTracePositionTracker::<3>::default();
    assert_eq!(cursor.move_pos(Direction::Backward), None);
    assert_eq!(cursor.move_pos(Direction::Forward), Some(position(0, 0)));
    assert_eq!(cursor.move_pos(Direction::Backward), None);
    assert_eq!(cursor.move_pos(Direction::Backward), None);
    assert_eq!(cursor.next_element(), Some(position(0, 0)));
    for _ in 0..80 {
        assert!(cursor.next_element().is_some());
    }
    assert_eq!(cursor.next_element(), None);
    assert_eq!(cursor.next_element(), None);
    assert_eq!(cursor.previous(), Some(position(8, 8)));
}

#[test]
fn the_cursor_wraps_at_the_end_of_a_line() {
    let mut cursor = BackTracePositionTracker::<2>::new();
    let first = CellPosition::<2>::new_from_number(3, 0);
    let second = CellPosition::<2>::new_from_number(0, 1);
    for _ in 0..3 {
        cursor.next_element();
    }
    assert_eq!(cursor.next_element(), first);
    assert_eq!(cursor.next_element(), second);
    assert_eq!(cursor.previous(), first);
}

#[test]
fn the_cursor_of_a_grid_without_cells() {
    let mut cursor = BackTracePositionTracker::<0>::new();
    assert_eq!(cursor.next_element(), None);
    assert_eq!(cursor.next_element(), None);
    assert_eq!(cursor.previous(), None);
    assert_eq!(cursor.previous(), None);
}
