use sudoku::cell::{CellGuess, CellNumber, CellPossibilities};

#[test]
fn t_display() {
    for n in 1..=9 {
        let cell = CellNumber::<3>::new(n).unwrap();
        assert_eq!(cell.to_string(), format!("{}", n));
        assert_eq!(cell.to_binary(), format!("{:b}", n));
        assert_eq!(cell.to_upper_hex(), format!("{:X}", n));
        assert_eq!(cell.to_lower_hex(), format!("{:x}", n));
        assert_eq!(cell.to_octal(), format!("{:o}", n));
    }
}

#[test]
fn guess() {
    let mut guess = CellGuess::<3>::new(CellPossibilities::new()).unwrap();
    assert_eq!(guess.cell_number().unwrap(), CellNumber::new(1).unwrap());
    assert_eq!(guess.next_guess().unwrap(), CellNumber::new(2).unwrap());
    assert_eq!(guess.cell_number().unwrap(), CellNumber::new(2).unwrap());
    for i in 3..10 {
        assert_eq!(guess.next_guess().unwrap().number(), i);
    }
    assert_eq!(guess.next_guess(), None);

    let mut poss = CellPossibilities::<3>::new_no_possibility();
    assert!(CellGuess::new(poss.clone()).is_none());
    poss[CellNumber::new(4).unwrap()] = true;
    let mut guess = CellGuess::new(poss).unwrap();
    assert_eq!(guess.cell_number().unwrap().number(), 4);
    assert_eq!(guess.next_guess(), None);
    assert_eq!(guess.cell_number(), None);
}

#[test]
fn possibilities() {
    let poss = CellPossibilities::<3>::default();
    assert_eq!(CellPossibilities::new(), poss);
    assert!(poss.iter().all(|el| *el));
}
