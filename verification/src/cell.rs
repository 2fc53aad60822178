//! Cells, their states and the numbers they hold.

use std::cmp::Ordering;
use vstd::prelude::*;
use crate::error::SetError;
use crate::text::{digits, number_text};

mod guess;
mod possibility;

pub use guess::{CellGuess, GuessModel};
pub use possibility::{
    allows, count_true, full, intersect, is_next_allowed, is_only, lemma_count_one,
    lemma_count_zero, lemma_intersect_associative_idempotent, lemma_intersect_commutative,
    lemma_intersect_full, lemma_intersect_vacant, lemma_next_allowed, lemma_sole,
    lemma_unite_commutative_associative, lists, next_allowed, sole, unite, vacant,
    CellPossibilities,
};

verus! {

/// The side of a grid of block size `square_size`.
pub open spec fn side(square_size: u8) -> int {
    square_size * square_size
}

/// The side of a grid never exceeds `255 * 255`.
pub proof fn lemma_side_bound(square_size: u8)
    ensures
        0 <= side(square_size) <= 65025,
        square_size > 0 ==> side(square_size) >= square_size,
{
    assert(0 <= square_size * square_size <= 65025) by (nonlinear_arith)
        requires
            0 <= square_size <= 255,
    ;
    assert(square_size > 0 ==> square_size * square_size >= square_size) by (nonlinear_arith)
        requires
            0 <= square_size <= 255,
    ;
}

/// The side of a grid of block size `square_size`, computed.
pub fn game_side(square_size: u8) -> (r: usize)
    ensures
        r == side(square_size),
{
    proof {
        lemma_side_bound(square_size);
    }
    let s: usize = square_size as usize;
    s * s
}

/// How the whole numbers `a` and `b` stand to each other.
pub open spec fn compare(a: int, b: int) -> Ordering {
    if a < b {
        Ordering::Less
    } else if a == b {
        Ordering::Equal
    } else {
        Ordering::Greater
    }
}

/// A number that a cell can hold: at least `1` and at most the side of the grid.
#[derive(Debug, Clone, Copy, Eq, Ord, Hash)]
pub struct CellNumber<const SQUARE_SIZE: u8> {
    number: usize,
}

impl<const SQUARE_SIZE: u8> View for CellNumber<SQUARE_SIZE> {
    type V = int;

    closed spec fn view(&self) -> int {
        self.number as int
    }
}

impl<const SQUARE_SIZE: u8> PartialEq for CellNumber<SQUARE_SIZE> {
    fn eq(&self, other: &Self) -> (r: bool) {
        self.number == other.number
    }
}

impl<const SQUARE_SIZE: u8> vstd::std_specs::cmp::PartialEqSpecImpl for CellNumber<SQUARE_SIZE> {
    open spec fn obeys_eq_spec() -> bool {
        true
    }

    open spec fn eq_spec(&self, other: &Self) -> bool {
        self@ == other@
    }
}

impl<const SQUARE_SIZE: u8> PartialOrd for CellNumber<SQUARE_SIZE> {
    fn partial_cmp(&self, other: &Self) -> (r: Option<Ordering>) {
        if self.number < other.number {
            Some(Ordering::Less)
        } else if self.number == other.number {
            Some(Ordering::Equal)
        } else {
            Some(Ordering::Greater)
        }
    }
}

impl<const SQUARE_SIZE: u8> vstd::std_specs::cmp::PartialOrdSpecImpl for CellNumber<SQUARE_SIZE> {
    open spec fn obeys_partial_cmp_spec() -> bool {
        true
    }

    open spec fn partial_cmp_spec(&self, other: &Self) -> Option<Ordering> {
        Some(compare(self@, other@))
    }
}

impl<const SQUARE_SIZE: u8> CellNumber<SQUARE_SIZE> {
    #[verifier::type_invariant]
    spec fn in_range(self) -> bool {
        1 <= self.number <= side(SQUARE_SIZE)
    }

    /// Whether `number` is one that a cell can hold.
    pub open spec fn spec_is_in_bound(number: usize) -> bool {
        1 <= number <= side(SQUARE_SIZE)
    }

    /// Whether `number` is one that a cell can hold.
    #[verifier::when_used_as_spec(spec_is_in_bound)]
    pub fn is_in_bound(number: usize) -> (r: bool)
        ensures
            r == (1 <= number <= side(SQUARE_SIZE)),
    {
        number <= game_side(SQUARE_SIZE) && number > 0
    }

    /// The cell number `number`, if it is in bounds.
    pub fn new(number: usize) -> (r: Option<Self>)
        ensures
            r is Some <==> Self::is_in_bound(number),
            r matches Some(c) ==> c@ == number,
    {
        if Self::is_in_bound(number) {
            Some(Self { number })
        } else {
            None
        }
    }

    /// The number held.
    pub fn number(&self) -> (r: usize)
        ensures
            r == self@,
            1 <= r <= side(SQUARE_SIZE),
    {
        proof {
            use_type_invariant(self);
        }
        self.number
    }

    /// Replaces the number held by `number` if that is in bounds, and changes
    /// nothing otherwise.
    pub fn set_number(&mut self, number: usize) -> (r: Result<(), SetError>)
        ensures
            Self::is_in_bound(number) ==> r is Ok && final(self)@ == number,
            !Self::is_in_bound(number) ==> r == Err::<(), SetError>(SetError::ValueOutOfBounds)
                && *final(self) == *old(self),
    {
        if Self::is_in_bound(number) {
            self.number = number;
            Ok(())
        } else {
            Err(SetError::ValueOutOfBounds)
        }
    }

    /// The number in decimal digits.
    pub fn to_string(&self) -> (text: String)
        ensures
            text@ == digits(self@ as nat, 10, false),
    {
        number_text(self.number, 10, false)
    }

    /// The number in binary digits.
    pub fn to_binary(&self) -> (text: String)
        ensures
            text@ == digits(self@ as nat, 2, false),
    {
        number_text(self.number, 2, false)
    }

    /// The number in octal digits.
    pub fn to_octal(&self) -> (text: String)
        ensures
            text@ == digits(self@ as nat, 8, false),
    {
        number_text(self.number, 8, false)
    }

    /// The number in hexadecimal digits, with small letters.
    pub fn to_lower_hex(&self) -> (text: String)
        ensures
            text@ == digits(self@ as nat, 16, false),
    {
        number_text(self.number, 16, false)
    }

    /// The number in hexadecimal digits, with capital letters.
    pub fn to_upper_hex(&self) -> (text: String)
        ensures
            text@ == digits(self@ as nat, 16, true),
    {
        number_text(self.number, 16, true)
    }
}

/// The number that `number` holds, if it holds one.
pub open spec fn number_view<const SQUARE_SIZE: u8>(
    number: Option<CellNumber<SQUARE_SIZE>>,
) -> Option<int> {
    match number {
        Some(n) => Some(n@),
        None => None,
    }
}

/// What a cell state is, over plain numbers and sequences.
pub enum CellModel {
    /// A number given with the puzzle.
    Given(int),
    /// A number found by deduction.
    SolvedDeduction(int),
    /// A number found by search.
    SolvedBackTrace(int),
    /// No number, and perhaps a note of what is possible.
    Empty(Option<Seq<bool>>),
    /// A number being tried.
    Guess(GuessModel),
}

impl CellModel {
    /// The number that the cell holds, if it holds one. An empty cell holds
    /// one only where its note leaves exactly one number possible.
    pub open spec fn value(self) -> Option<int> {
        match self {
            CellModel::Given(n)
            | CellModel::SolvedDeduction(n)
            | CellModel::SolvedBackTrace(n) => Some(n),
            CellModel::Guess(guess) => guess.number,
            CellModel::Empty(Some(possibility)) => sole(possibility),
            CellModel::Empty(None) => None,
        }
    }

    /// Whether the cell is given or solved, so that no solver changes it.
    pub open spec fn is_fixed(self) -> bool {
        self is Given || self is SolvedDeduction || self is SolvedBackTrace
    }
}

/// The state of a cell, with what a solver needs to go on or to go back.
#[derive(Debug, PartialEq, Eq, PartialOrd, Ord, Hash)]
pub enum CellState<const SQUARE_SIZE: u8> {
    /// A number given with the puzzle.
    Given(CellNumber<SQUARE_SIZE>),
    /// A number found by deduction.
    SolvedDeduction(CellNumber<SQUARE_SIZE>),
    /// A number found by search.
    SolvedBackTrace(CellNumber<SQUARE_SIZE>),
    /// No number, and perhaps a note of what is possible.
    Empty(Option<CellPossibilities<SQUARE_SIZE>>),
    /// A number being tried.
    Guess(CellGuess<SQUARE_SIZE>),
}

impl<const SQUARE_SIZE: u8> View for CellState<SQUARE_SIZE> {
    type V = CellModel;

    open spec fn view(&self) -> CellModel {
        match self {
            CellState::Given(n) => CellModel::Given(n@),
            CellState::SolvedDeduction(n) => CellModel::SolvedDeduction(n@),
            CellState::SolvedBackTrace(n) => CellModel::SolvedBackTrace(n@),
            CellState::Empty(Some(possibility)) => CellModel::Empty(Some(possibility@)),
            CellState::Empty(None) => CellModel::Empty(None),
            CellState::Guess(guess) => CellModel::Guess(guess@),
        }
    }
}

impl<const SQUARE_SIZE: u8> Clone for CellState<SQUARE_SIZE> {
    fn clone(&self) -> (r: Self)
        ensures
            r@ == self@,
    {
        match self {
            CellState::Given(number) => CellState::Given(*number),
            CellState::SolvedDeduction(number) => CellState::SolvedDeduction(*number),
            CellState::SolvedBackTrace(number) => CellState::SolvedBackTrace(*number),
            CellState::Empty(Some(possibility)) => CellState::Empty(Some(possibility.clone())),
            CellState::Empty(None) => CellState::Empty(None),
            CellState::Guess(guess) => CellState::Guess(guess.clone()),
        }
    }
}

impl<const SQUARE_SIZE: u8> CellState<SQUARE_SIZE> {
    /// The number that the cell holds, if it holds one.
    pub fn cell_number(&self) -> (r: Option<CellNumber<SQUARE_SIZE>>)
        ensures
            number_view(r) == self@.value(),
    {
        match self {
            CellState::Given(number)
            | CellState::SolvedDeduction(number)
            | CellState::SolvedBackTrace(number) => Some(*number),
            CellState::Guess(guess) => guess.cell_number(),
            CellState::Empty(Some(possibility)) => possibility.cell_number(),
            CellState::Empty(None) => None,
        }
    }

    /// The state of a given number, or the empty state without a note.
    pub fn new(nb: Option<CellNumber<SQUARE_SIZE>>) -> (r: Self)
        ensures
            r@ == match nb {
                Some(n) => CellModel::Given(n@),
                None => CellModel::Empty(None),
            },
    {
        match nb {
            Some(nb) => CellState::Given(nb),
            None => CellState::Empty(None),
        }
    }
}

impl<const SQUARE_SIZE: u8> Default for CellState<SQUARE_SIZE> {
    /// The empty state without a note.
    fn default() -> (r: Self)
        ensures
            r@ == CellModel::Empty(None),
    {
        CellState::Empty(None)
    }
}

/// One cell of a grid.
#[derive(Debug, PartialEq, Eq, PartialOrd, Ord, Hash)]
pub struct Cell<const SQUARE_SIZE: u8> {
    state: CellState<SQUARE_SIZE>,
}

impl<const SQUARE_SIZE: u8> View for Cell<SQUARE_SIZE> {
    type V = CellModel;

    closed spec fn view(&self) -> CellModel {
        self.state@
    }
}

impl<const SQUARE_SIZE: u8> Clone for Cell<SQUARE_SIZE> {
    fn clone(&self) -> (r: Self)
        ensures
            r@ == self@,
    {
        Cell { state: self.state.clone() }
    }
}

impl<const SQUARE_SIZE: u8> Default for Cell<SQUARE_SIZE> {
    /// The empty cell.
    fn default() -> (r: Self)
        ensures
            r@ == CellModel::Empty(None),
    {
        Cell { state: CellState::Empty(None) }
    }
}

impl<const SQUARE_SIZE: u8> Cell<SQUARE_SIZE> {
    /// The cell in the state `state`.
    pub fn new(state: CellState<SQUARE_SIZE>) -> (r: Self)
        ensures
            r@ == state@,
    {
        Self { state }
    }

    /// The state of the cell.
    pub fn state(&self) -> (r: &CellState<SQUARE_SIZE>)
        ensures
            r@ == self@,
    {
        &self.state
    }

    /// The state of the cell, to be changed.
    pub fn state_mut(&mut self) -> (r: &mut CellState<SQUARE_SIZE>)
        ensures
            r@ == old(self)@,
            final(self)@ == final(r)@,
    {
        &mut self.state
    }

    /// The cell of a given number, or the empty cell.
    pub fn new_opt(nb: Option<CellNumber<SQUARE_SIZE>>) -> (r: Self)
        ensures
            r@ == match nb {
                Some(n) => CellModel::Given(n@),
                None => CellModel::Empty(None),
            },
    {
        Self { state: CellState::new(nb) }
    }

    /// The empty cell.
    pub fn new_empty() -> (r: Self)
        ensures
            r@ == CellModel::Empty(None),
    {
        Self { state: CellState::Empty(None) }
    }

    /// The cell of the given number `hint`.
    pub fn new_hint(hint: CellNumber<SQUARE_SIZE>) -> (r: Self)
        ensures
            r@ == CellModel::Given(hint@),
    {
        Self { state: CellState::Given(hint) }
    }

    /// The number that the cell holds, if it holds one.
    pub fn cell_number(&self) -> (r: Option<CellNumber<SQUARE_SIZE>>)
        ensures
            number_view(r) == self@.value(),
    {
        self.state().cell_number()
    }
}

} // verus!
