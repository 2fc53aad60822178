//! The value that the search is trying in one cell.

use vstd::prelude::*;
use crate::cell::{allows, next_allowed, number_view, side, CellNumber, CellPossibilities};

verus! {

/// What a guess is: the number being tried, and what was possible when
/// the guess began.
pub struct GuessModel {
    /// The number being tried; none once all have been tried.
    pub number: Option<int>,
    /// What was possible in the cell when the guess began.
    pub possibility: Seq<bool>,
}

/// A guess for one cell. The numbers that were possible when the guess began
/// are tried in ascending order, each once.
#[derive(Debug, PartialEq, Eq, PartialOrd, Ord, Hash)]
pub struct CellGuess<const SQUARE_SIZE: u8> {
    number: Option<CellNumber<SQUARE_SIZE>>,
    possibility: CellPossibilities<SQUARE_SIZE>,
}

impl<const SQUARE_SIZE: u8> View for CellGuess<SQUARE_SIZE> {
    type V = GuessModel;

    closed spec fn view(&self) -> GuessModel {
        GuessModel { number: number_view(self.number), possibility: self.possibility@ }
    }
}

impl<const SQUARE_SIZE: u8> Clone for CellGuess<SQUARE_SIZE> {
    fn clone(&self) -> (r: Self)
        ensures
            r@ == self@,
    {
        proof {
            use_type_invariant(self);
        }
        Self { number: self.number, possibility: self.possibility.clone() }
    }
}

impl<const SQUARE_SIZE: u8> Default for CellGuess<SQUARE_SIZE> {
    /// The guess that tries nothing, where everything was possible.
    fn default() -> (r: Self)
        ensures
            r@.number is None,
            r@.possibility == crate::cell::full(side(SQUARE_SIZE)),
    {
        Self { number: None, possibility: CellPossibilities::new() }
    }
}

impl<const SQUARE_SIZE: u8> CellGuess<SQUARE_SIZE> {
    #[verifier::type_invariant]
    spec fn tries_a_candidate(self) -> bool {
        &&& self.possibility@.len() == side(SQUARE_SIZE)
        &&& self.number matches Some(n) ==> allows(self.possibility@, n@)
    }

    /// Finds the smallest possible number above `after`.
    fn find_next(possibility: &CellPossibilities<SQUARE_SIZE>, after: usize) -> (r: Option<
        CellNumber<SQUARE_SIZE>,
    >)
        ensures
            number_view(r) == next_allowed(possibility@, after as int),
            r matches Some(n) ==> allows(possibility@, n@),
            possibility@.len() == side(SQUARE_SIZE),
    {
        let len = possibility.len();
        let mut index: usize = after;
        while index < len
            invariant
                len == possibility@.len(),
                len == side(SQUARE_SIZE),
                after <= index,
                next_allowed(possibility@, after as int) == next_allowed(
                    possibility@,
                    index as int,
                ),
            decreases len - index,
        {
            let number = CellNumber::<SQUARE_SIZE>::new(index + 1);
            let candidate = number.unwrap();
            if possibility.get(candidate) {
                return Some(candidate);
            }
            index = index + 1;
        }
        None
    }

    /// The guess that tries the smallest number of `possibility`; none where
    /// nothing is possible.
    pub fn new(possibility: CellPossibilities<SQUARE_SIZE>) -> (r: Option<Self>)
        ensures
            r is Some <==> next_allowed(possibility@, 0) is Some,
            r matches Some(guess) ==> guess@ == (GuessModel {
                number: next_allowed(possibility@, 0),
                possibility: possibility@,
            }),
            possibility@.len() == side(SQUARE_SIZE),
    {
        match Self::find_next(&possibility, 0) {
            Some(number) => Some(Self { number: Some(number), possibility }),
            None => None,
        }
    }

    /// Moves on to the next possible number above the one being tried, and
    /// returns it. Where there is none, or nothing was being tried, the guess
    /// tries nothing from now on.
    pub fn next_guess(&mut self) -> (r: Option<CellNumber<SQUARE_SIZE>>)
        ensures
            final(self)@.possibility == old(self)@.possibility,
            final(self)@.number == match old(self)@.number {
                Some(tried) => next_allowed(old(self)@.possibility, tried),
                None => None,
            },
            number_view(r) == final(self)@.number,
            old(self)@.possibility.len() == side(SQUARE_SIZE),
            old(self)@.number matches Some(tried) ==> allows(old(self)@.possibility, tried),
    {
        proof {
            use_type_invariant(&*self);
        }
        match self.number {
            Some(number) => {
                let next = Self::find_next(&self.possibility, number.number());
                self.number = next;
                next
            },
            None => None,
        }
    }

    /// What was possible in the cell when the guess began.
    pub fn possibility(&self) -> (r: &CellPossibilities<SQUARE_SIZE>)
        ensures
            r@ == self@.possibility,
    {
        &self.possibility
    }

    /// The number being tried.
    pub fn cell_number(&self) -> (r: Option<CellNumber<SQUARE_SIZE>>)
        ensures
            number_view(r) == self@.number,
            r matches Some(n) ==> allows(self@.possibility, n@),
            self@.possibility.len() == side(SQUARE_SIZE),
    {
        proof {
            use_type_invariant(self);
        }
        self.number
    }
}

} // verus!
