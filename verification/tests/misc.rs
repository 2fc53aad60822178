use sudoku::cell::game_side;
use sudoku::size::GameSize;
use sudoku::text::{append_number, number_text};

#[test]
fn game_sizes() {
    assert_eq!(GameSize::new(16).unwrap(), GameSize::new_square_size(4));
    assert_eq!(GameSize::new(25).unwrap(), GameSize::new_square_size(5));
    assert_eq!(GameSize::new(36).unwrap(), GameSize::new_square_size(6));
    assert!(GameSize::new(15).is_none());
    assert!(GameSize::new(35).is_none());
    assert!(GameSize::new(50).is_none());
    assert_eq!(GameSize::new(0).unwrap(), GameSize::new_square_size(0));
    assert_eq!(GameSize::new(1).unwrap(), GameSize::new_square_size(1));
    assert!(GameSize::new(2).is_none());
    assert!(GameSize::new(usize::MAX).is_none());
    assert_eq!(GameSize::default(), GameSize::new_square_size(3));
}

#[test]
fn game_sizes_of_large_squares() {
    let root = 3_037_000_499_usize;
    assert_eq!(
        GameSize::new(root * root).unwrap(),
        GameSize::new_square_size(root)
    );
    assert!(GameSize::new(root * root + 1).is_none());
    assert!(GameSize::new(root * root - 1).is_none());
}

#[test]
fn sides_and_cells_of_a_game() {
    let size = GameSize::new(16).unwrap();
    assert_eq!(size.square_size(), 4);
    assert_eq!(size.game_size(), 16);
    assert_eq!(size.cell_number(), 16 * 16);
    let size = GameSize::new_square_size(3);
    assert_eq!(size.square_size(), 3);
    assert_eq!(size.game_size(), 9);
    assert_eq!(size.cell_number(), 81);
    assert_eq!(game_side(3), 9);
    assert_eq!(game_side(0), 0);
    assert_eq!(game_side(255), 65025);
}

#[test]
fn numbers_as_text() {
    assert_eq!(number_text(0, 10, false), "0");
    assert_eq!(number_text(7, 10, false), "7");
    assert_eq!(number_text(10, 10, false), "10");
    assert_eq!(number_text(1234567890, 10, false), "1234567890");
    assert_eq!(number_text(255, 16, false), "ff");
    assert_eq!(number_text(255, 16, true), "FF");
    assert_eq!(number_text(255, 2, false), "11111111");
    assert_eq!(number_text(8, 8, false), "10");
    assert_eq!(number_text(35, 6, true), "55");
    assert_eq!(
        number_text(usize::MAX, 10, false),
        format!("{}", usize::MAX)
    );
    assert_eq!(
        number_text(usize::MAX, 16, true),
        format!("{:X}", usize::MAX)
    );
    let mut text = String::from("n = ");
    append_number(&mut text, 42, 10, false);
    assert_eq!(text, "n = 42");
}
