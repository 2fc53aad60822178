use sudoku::grid::{BackTracePositionTracker, CellPosition};

#[test]
fn back_trace_iter_basic() {
    const GAME_SIZE: usize = 9;
    let mut iter = BackTracePositionTracker::<3>::new();
    assert_eq!(iter.next(), CellPosition::new_from_number(0, 0));
    assert_eq!(iter.next(), CellPosition::new_from_number(1, 0));
    for i in 2..GAME_SIZE {
        let pos = CellPosition::new_from_number(i, 0);
        assert!(pos.is_some());
        assert_eq!(iter.next(), pos);
    }
    assert_eq!(iter.next(), CellPosition::new_from_number(0, 1));
}

#[test]
fn back_trace_iter_extensive() {
    const GAME_SIZE: usize = 9;
    let mut iter = BackTracePositionTracker::<3>::new();
    for y in 0..GAME_SIZE {
        for x in 0..GAME_SIZE {
            let pos = CellPosition::new_from_number(x, y);
            assert!(pos.is_some());
            assert_eq!(iter.next(), pos);
        }
    }
    for _ in 0_i32..10_i32 {
        assert_eq!(iter.next(), None);
    }

    for y in (0..GAME_SIZE).rev() {
        for x in (0..GAME_SIZE).rev() {
            let pos = CellPosition::new_from_number(x, y);
            assert!(pos.is_some());
            assert_eq!(iter.previous(), pos);
        }
    }

    for _ in 0_i32..10_i32 {
        assert_eq!(iter.previous(), None);
    }
    assert_eq!(iter.next(), CellPosition::new_from_number(0, 0));
    assert_eq!(iter.next(), CellPosition::new_from_number(1, 0));
    for i in 2..GAME_SIZE {
        let pos = CellPosition::new_from_number(i, 0);
        assert!(pos.is_some());
        assert_eq!(iter.next(), pos);
    }
    assert_eq!(iter.previous(), CellPosition::new_from_number(7, 0));
    assert_eq!(iter.next(), CellPosition::new_from_number(8, 0));
    assert_eq!(iter.next(), CellPosition::new_from_number(0, 1));
    assert_eq!(iter.previous(), CellPosition::new_from_number(8, 0));
    assert_eq!(iter.previous(), CellPosition::new_from_number(7, 0));
}
