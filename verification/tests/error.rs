use sudoku::error::{ExampleError, SetError};

#[test]
fn display() {
    let string = ExampleError::NoneError.to_string();
    assert!(string.contains("none"));
    assert!(string.contains("option"));

    let string = SetError::ValueOutOfBounds.to_string();
    assert!(string.contains("the value"));
    assert!(string.contains("out of bounds"));
}
