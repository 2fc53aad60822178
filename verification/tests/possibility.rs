use sudoku::cell::{Cell, CellGuess, CellNumber, CellPossibilities, CellState};
use sudoku::error::SetError;

fn number(n: usize) -> CellNumber<3> {
    CellNumber::new(n).unwrap()
}

fn set_of(numbers: &[usize]) -> CellPossibilities<3> {
    let mut set = CellPossibilities::<3>::new_no_possibility();
    for n in numbers {
        set[number(*n)] = true;
    }
    set
}

#[test]
fn full_set_counts_nine_and_a_single_number_is_unique() {
    let mut set = CellPossibilities::<3>::new();
    assert_eq!(set.number_of_possibility(), 9);
    assert_eq!(set.cell_number(), None);
    for n in 1..=9 {
        if n != 4 {
            set[number(n)] = false;
        }
    }
    assert_eq!(set.number_of_possibility(), 1);
    assert_eq!(set.cell_number(), Some(number(4)));
}

#[test]
fn empty_set_has_no_number() {
    let set = CellPossibilities::<3>::new_no_possibility();
    assert_eq!(set.number_of_possibility(), 0);
    assert_eq!(set.cell_number(), None);
    assert!(set.clone().into_vec().is_empty());
    assert_eq!(set.len(), 9);
}

#[test]
fn intersection_is_commutative() {
    let a = set_of(&[1, 2, 5, 9]);
    let b = set_of(&[2, 3, 9]);
    assert_eq!(a.clone() & b.clone(), b.clone() & a.clone());
    assert_eq!(a & b, set_of(&[2, 9]));
}

#[test]
fn intersection_with_full_and_empty() {
    let a = set_of(&[1, 4, 7]);
    assert_eq!(a.clone() & CellPossibilities::new(), a);
    assert_eq!(CellPossibilities::new() & a.clone(), a);
    assert_eq!(
        a.clone() & CellPossibilities::new_no_possibility(),
        CellPossibilities::new_no_possibility()
    );
    assert_eq!(a.clone() & a.clone(), a);
}

#[test]
fn intersection_is_associative() {
    let a = set_of(&[1, 2, 3, 4]);
    let b = set_of(&[2, 3, 4, 5]);
    let c = set_of(&[3, 4, 5, 6]);
    assert_eq!(
        (a.clone() & b.clone()) & c.clone(),
        a.clone() & (b.clone() & c.clone())
    );
    assert_eq!((a & b) & c, set_of(&[3, 4]));
}

#[test]
fn union_combines_both_sets() {
    let a = set_of(&[1, 2]);
    let b = set_of(&[2, 9]);
    assert_eq!(a.clone() | b.clone(), set_of(&[1, 2, 9]));
    assert_eq!(a.clone() | b.clone(), b | a.clone());
    assert_eq!(a.clone() | CellPossibilities::new_no_possibility(), a);
}

#[test]
fn numbers_come_out_in_ascending_order() {
    let set = set_of(&[8, 1, 5]);
    let numbers: Vec<usize> = set.into_vec().iter().map(|n| n.number()).collect();
    assert_eq!(numbers, vec![1, 5, 8]);
}

#[test]
fn get_and_set_by_number() {
    let mut set = CellPossibilities::<3>::new_no_possibility();
    assert!(!set.get(number(9)));
    set.set(number(9), true);
    assert!(set.get(number(9)));
    assert!(set[number(9)]);
    assert!(!set[number(1)]);
    let entries: Vec<bool> = set.iter().copied().collect();
    assert_eq!(
        entries,
        vec![false, false, false, false, false, false, false, false, true]
    );
}

#[test]
fn cell_number_bounds() {
    assert!(CellNumber::<3>::new(0).is_none());
    assert!(CellNumber::<3>::new(1).is_some());
    assert!(CellNumber::<3>::new(9).is_some());
    assert!(CellNumber::<3>::new(10).is_none());
    assert!(CellNumber::<3>::is_in_bound(1));
    assert!(CellNumber::<3>::is_in_bound(9));
    assert!(!CellNumber::<3>::is_in_bound(0));
    assert!(!CellNumber::<3>::is_in_bound(109));
    assert!(CellNumber::<2>::new(4).is_some());
    assert!(CellNumber::<2>::new(5).is_none());
    assert!(CellNumber::<0>::new(1).is_none());
    assert!(CellNumber::<255>::new(65025).is_some());
    assert!(CellNumber::<255>::new(65026).is_none());
}

#[test]
fn cell_number_checked_setter_keeps_the_old_value_on_failure() {
    let mut c = number(1);
    assert_eq!(c.set_number(2), Ok(()));
    assert_eq!(c.number(), 2);
    assert_eq!(c.set_number(10), Err(SetError::ValueOutOfBounds));
    assert_eq!(c.number(), 2);
    assert_eq!(c.set_number(4), Ok(()));
    assert_eq!(c.number(), 4);
    assert_eq!(c.set_number(0), Err(SetError::ValueOutOfBounds));
    assert_eq!(c.number(), 4);
}

#[test]
fn cell_number_in_other_bases() {
    let c = CellNumber::<4>::new(15).unwrap();
    assert_eq!(c.to_string(), "15");
    assert_eq!(c.to_binary(), "1111");
    assert_eq!(c.to_octal(), "17");
    assert_eq!(c.to_lower_hex(), "f");
    assert_eq!(c.to_upper_hex(), "F");
    let c = CellNumber::<255>::new(65025).unwrap();
    assert_eq!(c.to_string(), "65025");
    assert_eq!(c.to_lower_hex(), "fe01");
    assert_eq!(c.to_upper_hex(), "FE01");
}

#[test]
fn guesses_go_through_the_possible_numbers_in_order() {
    let mut guess = CellGuess::new(set_of(&[3, 6, 7])).unwrap();
    assert_eq!(guess.cell_number(), Some(number(3)));
    assert_eq!(guess.next_guess(), Some(number(6)));
    assert_eq!(guess.next_guess(), Some(number(7)));
    assert_eq!(guess.next_guess(), None);
    assert_eq!(guess.cell_number(), None);
    assert_eq!(guess.next_guess(), None);
    assert_eq!(guess.possibility(), &set_of(&[3, 6, 7]));
}

#[test]
fn default_guess_tries_nothing() {
    let mut guess = CellGuess::<3>::default();
    assert_eq!(guess.cell_number(), None);
    assert_eq!(guess.possibility(), &CellPossibilities::new());
    assert_eq!(guess.next_guess(), None);
}

#[test]
fn cell_states_and_their_numbers() {
    assert_eq!(Cell::<3>::new_empty().cell_number(), None);
    assert_eq!(Cell::<3>::default(), Cell::new_empty());
    assert_eq!(Cell::new_hint(number(5)).cell_number(), Some(number(5)));
    assert_eq!(Cell::new_opt(Some(number(5))), Cell::new_hint(number(5)));
    assert_eq!(Cell::<3>::new_opt(None), Cell::new_empty());
    assert_eq!(CellState::<3>::default(), CellState::Empty(None));
    assert_eq!(CellState::new(Some(number(2))), CellState::Given(number(2)));
    assert_eq!(
        CellState::SolvedDeduction(number(3)).cell_number(),
        Some(number(3))
    );
    assert_eq!(
        CellState::SolvedBackTrace(number(4)).cell_number(),
        Some(number(4))
    );
    // an empty cell holds a number only where its note leaves exactly one
    assert_eq!(
        CellState::Empty(Some(set_of(&[7]))).cell_number(),
        Some(number(7))
    );
    assert_eq!(CellState::Empty(Some(set_of(&[7, 8]))).cell_number(), None);
    assert_eq!(
        CellState::<3>::Empty(Some(CellPossibilities::new_no_possibility())).cell_number(),
        None
    );
    let guess = CellGuess::new(set_of(&[2, 4])).unwrap();
    assert_eq!(CellState::Guess(guess).cell_number(), Some(number(2)));

    let mut cell = Cell::<3>::new_empty();
    *cell.state_mut() = CellState::Given(number(9));
    assert_eq!(cell.state(), &CellState::Given(number(9)));
    assert_eq!(cell.clone(), cell);
}
