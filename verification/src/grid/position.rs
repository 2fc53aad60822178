//! Coordinates and positions on a grid.

use std::cmp::Ordering;
use vstd::prelude::*;
use vstd::string::StringExecFns;
use crate::cell::{compare, game_side, side};
use crate::error::SetError;
use crate::text::{append_number, digits, number_text};

verus! {

/// A coordinate on a grid: at least `0` and less than the side of the grid.
#[derive(Debug, Clone, Copy, Eq, Ord, Hash)]
pub struct CellCoordinate<const SQUARE_SIZE: u8> {
    number: usize,
}

impl<const SQUARE_SIZE: u8> View for CellCoordinate<SQUARE_SIZE> {
    type V = int;

    closed spec fn view(&self) -> int {
        self.number as int
    }
}

impl<const SQUARE_SIZE: u8> PartialEq for CellCoordinate<SQUARE_SIZE> {
    fn eq(&self, other: &Self) -> (r: bool) {
        self.number == other.number
    }
}

impl<const SQUARE_SIZE: u8> vstd::std_specs::cmp::PartialEqSpecImpl for CellCoordinate<SQUARE_SIZE> {
    open spec fn obeys_eq_spec() -> bool {
        true
    }

    open spec fn eq_spec(&self, other: &Self) -> bool {
        self@ == other@
    }
}

impl<const SQUARE_SIZE: u8> PartialOrd for CellCoordinate<SQUARE_SIZE> {
    fn partial_cmp(&self, other: &Self) -> (r: Option<Ordering>) {
        if self.number < other.number {
            Some(Ordering::Less)
        } else if self.number == other.number {
            Some(Ordering::Equal)
        } else {
            Some(Ordering::Greater)
        }
    }
}

impl<const SQUARE_SIZE: u8> vstd::std_specs::cmp::PartialOrdSpecImpl for CellCoordinate<SQUARE_SIZE> {
    open spec fn obeys_partial_cmp_spec() -> bool {
        true
    }

    open spec fn partial_cmp_spec(&self, other: &Self) -> Option<Ordering> {
        Some(compare(self@, other@))
    }
}

impl<const SQUARE_SIZE: u8> CellCoordinate<SQUARE_SIZE> {
    #[verifier::type_invariant]
    spec fn in_range(self) -> bool {
        self.number < side(SQUARE_SIZE)
    }

    /// Whether `number` is a coordinate of the grid.
    pub open spec fn spec_is_in_bound(number: usize) -> bool {
        number < side(SQUARE_SIZE)
    }

    /// Whether `number` is a coordinate of the grid.
    #[verifier::when_used_as_spec(spec_is_in_bound)]
    pub fn is_in_bound(number: usize) -> (r: bool)
        ensures
            r == (number < side(SQUARE_SIZE)),
    {
        number < game_side(SQUARE_SIZE)
    }

    /// The coordinate `number`, if it is in bounds.
    pub fn new(number: usize) -> (r: Option<Self>)
        ensures
            r is Some <==> Self::is_in_bound(number),
            r matches Some(c) ==> c@ == number,
    {
        if Self::is_in_bound(number) {
            Some(Self { number })
        } else {
            None
        }
    }

    /// The number held.
    pub fn number(&self) -> (r: usize)
        ensures
            r == self@,
            r < side(SQUARE_SIZE),
    {
        proof {
            use_type_invariant(self);
        }
        self.number
    }

    /// Replaces the number held by `number` if that is in bounds, and changes
    /// nothing otherwise.
    pub fn set_number(&mut self, number: usize) -> (r: Result<(), SetError>)
        ensures
            Self::is_in_bound(number) ==> r is Ok && final(self)@ == number,
            !Self::is_in_bound(number) ==> r == Err::<(), SetError>(SetError::ValueOutOfBounds)
                && *final(self) == *old(self),
    {
        if Self::is_in_bound(number) {
            self.number = number;
            Ok(())
        } else {
            Err(SetError::ValueOutOfBounds)
        }
    }

    /// The coordinate in decimal digits.
    pub fn to_string(&self) -> (text: String)
        ensures
            text@ == digits(self@ as nat, 10, false),
    {
        number_text(self.number, 10, false)
    }
}

/// A position as text: its coordinates in decimal digits, in brackets.
pub open spec fn position_text(p: (int, int)) -> Seq<char> {
    "("@ + digits(p.0 as nat, 10, false) + ", "@ + digits(p.1 as nat, 10, false) + ")"@
}

/// The position of a cell on a grid.
#[derive(Debug, Clone, Copy, Eq, Ord, Hash)]
pub struct CellPosition<const SQUARE_SIZE: u8> {
    x: CellCoordinate<SQUARE_SIZE>,
    y: CellCoordinate<SQUARE_SIZE>,
}

impl<const SQUARE_SIZE: u8> View for CellPosition<SQUARE_SIZE> {
    type V = (int, int);

    closed spec fn view(&self) -> (int, int) {
        (self.x@, self.y@)
    }
}

impl<const SQUARE_SIZE: u8> PartialEq for CellPosition<SQUARE_SIZE> {
    fn eq(&self, other: &Self) -> (r: bool) {
        self.x.number() == other.x.number() && self.y.number() == other.y.number()
    }
}

impl<const SQUARE_SIZE: u8> vstd::std_specs::cmp::PartialEqSpecImpl for CellPosition<SQUARE_SIZE> {
    open spec fn obeys_eq_spec() -> bool {
        true
    }

    open spec fn eq_spec(&self, other: &Self) -> bool {
        self@ == other@
    }
}

impl<const SQUARE_SIZE: u8> PartialOrd for CellPosition<SQUARE_SIZE> {
    fn partial_cmp(&self, other: &Self) -> (r: Option<Ordering>) {
        let (x, y) = (self.x.number(), self.y.number());
        let (u, v) = (other.x.number(), other.y.number());
        if x < u || (x == u && y < v) {
            Some(Ordering::Less)
        } else if x == u && y == v {
            Some(Ordering::Equal)
        } else {
            Some(Ordering::Greater)
        }
    }
}

impl<const SQUARE_SIZE: u8> vstd::std_specs::cmp::PartialOrdSpecImpl for CellPosition<SQUARE_SIZE> {
    open spec fn obeys_partial_cmp_spec() -> bool {
        true
    }

    /// Positions are ordered by their first coordinate, and by the second
    /// where the first is the same.
    open spec fn partial_cmp_spec(&self, other: &Self) -> Option<Ordering> {
        if self@.0 == other@.0 {
            Some(compare(self@.1, other@.1))
        } else {
            Some(compare(self@.0, other@.0))
        }
    }
}

impl<const SQUARE_SIZE: u8> CellPosition<SQUARE_SIZE> {
    /// The position at `x` and `y`.
    pub fn new(x: CellCoordinate<SQUARE_SIZE>, y: CellCoordinate<SQUARE_SIZE>) -> (r: Self)
        ensures
            r@ == (x@, y@),
    {
        Self { x, y }
    }

    /// The first coordinate.
    pub fn x(&self) -> (r: CellCoordinate<SQUARE_SIZE>)
        ensures
            r@ == self@.0,
    {
        self.x
    }

    /// The second coordinate.
    pub fn y(&self) -> (r: CellCoordinate<SQUARE_SIZE>)
        ensures
            r@ == self@.1,
    {
        self.y
    }

    /// The first coordinate, to be changed.
    pub fn x_mut(&mut self) -> (r: &mut CellCoordinate<SQUARE_SIZE>)
        ensures
            r@ == old(self)@.0,
            final(self)@ == (final(r)@, old(self)@.1),
    {
        &mut self.x
    }

    /// The second coordinate, to be changed.
    pub fn y_mut(&mut self) -> (r: &mut CellCoordinate<SQUARE_SIZE>)
        ensures
            r@ == old(self)@.1,
            final(self)@ == (old(self)@.0, final(r)@),
    {
        &mut self.y
    }

    /// The first coordinate as a number.
    pub fn x_usize(&self) -> (r: usize)
        ensures
            r == self@.0,
            r < side(SQUARE_SIZE),
    {
        self.x().number()
    }

    /// The second coordinate as a number.
    pub fn y_usize(&self) -> (r: usize)
        ensures
            r == self@.1,
            r < side(SQUARE_SIZE),
    {
        self.y().number()
    }

    /// Appends the position, as text, to `text`.
    pub fn append_to(&self, text: &mut String)
        ensures
            final(text)@ == old(text)@ + position_text(self@),
    {
        text.append("(");
        append_number(text, self.x_usize(), 10, false);
        text.append(", ");
        append_number(text, self.y_usize(), 10, false);
        text.append(")");
        assert(text@ =~= old(text)@ + position_text(self@));
    }

    /// The position as text.
    pub fn to_string(&self) -> (text: String)
        ensures
            text@ == position_text(self@),
    {
        let mut text = String::new();
        self.append_to(&mut text);
        assert(Seq::<char>::empty() + position_text(self@) =~= position_text(self@));
        text
    }

    /// The position at `x` and `y`, if both are in bounds.
    pub fn new_from_number(x: usize, y: usize) -> (r: Option<Self>)
        ensures
            r is Some <==> x < side(SQUARE_SIZE) && y < side(SQUARE_SIZE),
            r matches Some(p) ==> p@ == (x as int, y as int),
    {
        match CellCoordinate::new(x) {
            Some(x) => match CellCoordinate::new(y) {
                Some(y) => Some(Self::new(x, y)),
                None => None,
            },
            None => None,
        }
    }
}

} // verus!
