//! The regions of a grid as sequences of positions, and the cursor of the search.

use vstd::arithmetic::div_mod::{lemma_fundamental_div_mod, lemma_fundamental_div_mod_converse};
use vstd::prelude::*;
use crate::cell::{game_side, lemma_side_bound, side};
use crate::grid::CellPosition;
use crate::private::Sealed;

verus! {

/// The positions of the row at height `y`, from left to right.
pub open spec fn row_positions(side: int, y: int) -> Seq<(int, int)> {
    Seq::new(side as nat, |i: int| (i, y))
}

/// The positions of the column at `x`, from top to bottom.
pub open spec fn column_positions(side: int, x: int) -> Seq<(int, int)> {
    Seq::new(side as nat, |i: int| (x, i))
}

/// The positions of the block that holds `(x, y)`, line by line.
pub open spec fn square_positions(block: int, x: int, y: int) -> Seq<(int, int)> {
    Seq::new(
        (block * block) as nat,
        |i: int| ((x / block) * block + i % block, (y / block) * block + i / block),
    )
}

/// How many positions of its block come before `(x, y)`.
pub open spec fn square_offset(block: int, x: int, y: int) -> int {
    (y % block) * block + x % block
}

/// A finite sequence of positions that covers one region of a grid.
pub trait SudokuIter<const SQUARE_SIZE: u8>: Sealed {
    /// The positions still to come, in order.
    spec fn remaining(&self) -> Seq<(int, int)>;

    /// Hands out the next position, if one is left.
    fn next(&mut self) -> (r: Option<CellPosition<SQUARE_SIZE>>)
        ensures
            old(self).remaining().len() == 0 ==> r is None && final(self).remaining() == old(
                self,
            ).remaining(),
            old(self).remaining().len() > 0 ==> r is Some && r->0@ == old(self).remaining()[0]
                && final(self).remaining() == old(self).remaining().drop_first(),
    ;

    /// How many positions are left, as a lower and an upper bound.
    fn size_hint(&self) -> (r: (usize, Option<usize>))
        ensures
            r.0 == self.remaining().len(),
            r.1 == Some(r.0),
    ;
}

/// The row of a position: the positions with its second coordinate.
#[derive(Debug, Clone, PartialEq, Eq, PartialOrd, Ord, Hash, Default)]
pub struct Row<const SQUARE_SIZE: u8> {
    position: Option<CellPosition<SQUARE_SIZE>>,
}

impl<const SQUARE_SIZE: u8> Row<SQUARE_SIZE> {
    /// The whole row that holds `position`.
    pub fn new(position: CellPosition<SQUARE_SIZE>) -> (r: Self)
        ensures
            r.remaining() == row_positions(side(SQUARE_SIZE), position@.1),
    {
        let y = position.y_usize();
        let first = CellPosition::new_from_number(0, y);
        assert(row_positions(side(SQUARE_SIZE), y as int).skip(0) =~= row_positions(
            side(SQUARE_SIZE),
            y as int,
        ));
        Self { position: first }
    }
}

impl<const SQUARE_SIZE: u8> Sealed for Row<SQUARE_SIZE> {

}

impl<const SQUARE_SIZE: u8> SudokuIter<SQUARE_SIZE> for Row<SQUARE_SIZE> {
    closed spec fn remaining(&self) -> Seq<(int, int)> {
        match self.position {
            Some(p) => row_positions(side(SQUARE_SIZE), p@.1).skip(p@.0),
            None => Seq::empty(),
        }
    }

    fn next(&mut self) -> (r: Option<CellPosition<SQUARE_SIZE>>) {
        match self.position {
            Some(position) => {
                let ghost row = row_positions(side(SQUARE_SIZE), position@.1);
                proof {
                    lemma_side_bound(SQUARE_SIZE);
                }
                let x = position.x_usize() + 1;
                let mut moved = position;
                match moved.x_mut().set_number(x) {
                    Ok(_) => {
                        self.position = Some(moved);
                        assert(row.skip(x as int) =~= row.skip(x - 1).drop_first());
                    },
                    Err(_) => {
                        self.position = None;
                        assert(Seq::<(int, int)>::empty() =~= row.skip(x - 1).drop_first());
                    },
                }
                Some(position)
            },
            None => None,
        }
    }

    fn size_hint(&self) -> (r: (usize, Option<usize>)) {
        let number = match self.position {
            Some(position) => game_side(SQUARE_SIZE) - position.x_usize(),
            None => 0,
        };
        (number, Some(number))
    }
}

/// The column of a position: the positions with its first coordinate.
#[derive(Debug, Clone, PartialEq, Eq, PartialOrd, Ord, Hash, Default)]
pub struct Column<const SQUARE_SIZE: u8> {
    position: Option<CellPosition<SQUARE_SIZE>>,
}

impl<const SQUARE_SIZE: u8> Column<SQUARE_SIZE> {
    /// The whole column that holds `position`.
    pub fn new(position: CellPosition<SQUARE_SIZE>) -> (r: Self)
        ensures
            r.remaining() == column_positions(side(SQUARE_SIZE), position@.0),
    {
        let x = position.x_usize();
        let first = CellPosition::new_from_number(x, 0);
        assert(column_positions(side(SQUARE_SIZE), x as int).skip(0) =~= column_positions(
            side(SQUARE_SIZE),
            x as int,
        ));
        Self { position: first }
    }
}

impl<const SQUARE_SIZE: u8> Sealed for Column<SQUARE_SIZE> {

}

impl<const SQUARE_SIZE: u8> SudokuIter<SQUARE_SIZE> for Column<SQUARE_SIZE> {
    closed spec fn remaining(&self) -> Seq<(int, int)> {
        match self.position {
            Some(p) => column_positions(side(SQUARE_SIZE), p@.0).skip(p@.1),
            None => Seq::empty(),
        }
    }

    fn next(&mut self) -> (r: Option<CellPosition<SQUARE_SIZE>>) {
        match self.position {
            Some(position) => {
                let ghost column = column_positions(side(SQUARE_SIZE), position@.0);
                proof {
                    lemma_side_bound(SQUARE_SIZE);
                }
                let y = position.y_usize() + 1;
                let mut moved = position;
                match moved.y_mut().set_number(y) {
                    Ok(_) => {
                        self.position = Some(moved);
                        assert(column.skip(y as int) =~= column.skip(y - 1).drop_first());
                    },
                    Err(_) => {
                        self.position = None;
                        assert(Seq::<(int, int)>::empty() =~= column.skip(y - 1).drop_first());
                    },
                }
                Some(position)
            },
            None => None,
        }
    }

    fn size_hint(&self) -> (r: (usize, Option<usize>)) {
        let number = match self.position {
            Some(position) => game_side(SQUARE_SIZE) - position.y_usize(),
            None => 0,
        };
        (number, Some(number))
    }
}

/// Where `x` lies in its block of width `block`, and where the block begins.
pub proof fn lemma_block(block: int, x: int)
    requires
        0 < block,
        0 <= x < block * block,
    ensures
        0 <= x % block < block,
        0 <= x / block < block,
        x == (x / block) * block + x % block,
        (x / block) * block + block <= block * block,
        (x / block) * block >= 0,
{
    lemma_fundamental_div_mod(x, block);
    let q = x / block;
    let r = x % block;
    assert(block * q == q * block) by (nonlinear_arith);
    assert(q < block) by (nonlinear_arith)
        requires
            x == q * block + r,
            0 <= r,
            x < block * block,
            0 < block,
    ;
    assert(0 <= q) by (nonlinear_arith)
        requires
            x == q * block + r,
            r < block,
            0 <= x,
            0 < block,
    ;
    assert(q * block + block <= block * block && q * block >= 0) by (nonlinear_arith)
        requires
            0 <= q < block,
    ;
}

/// A coordinate that lies `r` after the start of block `q` has quotient `q`
/// and remainder `r`.
proof fn lemma_in_block(block: int, q: int, r: int)
    requires
        0 < block,
        0 <= r < block,
    ensures
        (q * block + r) / block == q,
        (q * block + r) % block == r,
{
    lemma_fundamental_div_mod_converse(q * block + r, block, q, r);
}

/// The block of a position: its positions line by line.
#[derive(Debug, Clone, PartialEq, Eq, PartialOrd, Ord, Hash, Default)]
pub struct Square<const SQUARE_SIZE: u8> {
    position: Option<CellPosition<SQUARE_SIZE>>,
}

impl<const SQUARE_SIZE: u8> Square<SQUARE_SIZE> {
    /// The whole block that holds `position`.
    pub fn new(position: CellPosition<SQUARE_SIZE>) -> (r: Self)
        ensures
            r.remaining() == square_positions(SQUARE_SIZE as int, position@.0, position@.1),
    {
        let block = SQUARE_SIZE as usize;
        let x = position.x_usize();
        let y = position.y_usize();
        proof {
            lemma_side_bound(SQUARE_SIZE);
            lemma_block(block as int, x as int);
            lemma_block(block as int, y as int);
        }
        let x_pos = (x / block) * block;
        let y_pos = (y / block) * block;
        let first = CellPosition::new_from_number(x_pos, y_pos);
        proof {
            lemma_in_block(block as int, x as int / block as int, 0);
            lemma_in_block(block as int, y as int / block as int, 0);
            let all = square_positions(block as int, x as int, y as int);
            assert(square_positions(block as int, x_pos as int, y_pos as int) =~= all);
            assert(square_offset(block as int, x_pos as int, y_pos as int) == 0) by (
                nonlinear_arith)
                requires
                    x_pos as int % block as int == 0,
                    y_pos as int % block as int == 0,
            ;
            assert(all.skip(0) =~= all);
        }
        Self { position: first }
    }
}

impl<const SQUARE_SIZE: u8> Sealed for Square<SQUARE_SIZE> {

}

impl<const SQUARE_SIZE: u8> SudokuIter<SQUARE_SIZE> for Square<SQUARE_SIZE> {
    closed spec fn remaining(&self) -> Seq<(int, int)> {
        match self.position {
            Some(p) => square_positions(SQUARE_SIZE as int, p@.0, p@.1).skip(
                square_offset(SQUARE_SIZE as int, p@.0, p@.1),
            ),
            None => Seq::empty(),
        }
    }

    fn next(&mut self) -> (r: Option<CellPosition<SQUARE_SIZE>>) {
        match self.position {
            Some(position) => {
                let block = SQUARE_SIZE as usize;
                let x = position.x_usize();
                let y = position.y_usize();
                let ghost b = block as int;
                let ghost all = square_positions(b, x as int, y as int);
                let ghost offset = square_offset(b, x as int, y as int);
                proof {
                    lemma_side_bound(SQUARE_SIZE);
                    lemma_block(b, x as int);
                    lemma_block(b, y as int);
                    assert(0 <= offset < b * b) by (nonlinear_arith)
                        requires
                            offset == (y as int % b) * b + x as int % b,
                            0 <= y as int % b < b,
                            0 <= x as int % b < b,
                    ;
                    lemma_in_block(b, y as int % b, x as int % b);
                    assert(all[offset] == (x as int, y as int));
                    if x as int % b + 1 < b {
                        lemma_in_block(b, x as int / b, x as int % b + 1);
                    } else {
                        lemma_in_block(b, x as int / b + 1, 0);
                        assert((x as int / b + 1) * b == (x as int / b) * b + b) by (
                            nonlinear_arith);
                    }
                }
                let mut x_pos = x + 1;
                let mut y_pos = y;
                if x_pos % block == 0 {
                    x_pos = x_pos - block;
                    y_pos = y_pos + 1;
                }
                let position_new = if y_pos % block == 0 && x_pos % block == 0 {
                    None
                } else {
                    CellPosition::new_from_number(x_pos, y_pos)
                };
                proof {
                    let qx = x as int / b;
                    let qy = y as int / b;
                    let rx = x as int % b;
                    let ry = y as int % b;
                    if rx + 1 < b {
                        lemma_in_block(b, qx, rx + 1);
                        assert(x_pos == x + 1 && y_pos == y);
                        assert(square_positions(b, x_pos as int, y_pos as int) =~= all);
                        assert(square_offset(b, x_pos as int, y_pos as int) == offset + 1);
                    } else {
                        lemma_in_block(b, qx + 1, 0);
                        assert((qx + 1) * b == qx * b + b) by (nonlinear_arith);
                        lemma_in_block(b, qx, 0);
                        assert(x_pos == qx * b && y_pos == y + 1);
                        if ry + 1 < b {
                            lemma_in_block(b, qy, ry + 1);
                            assert(square_positions(b, x_pos as int, y_pos as int) =~= all);
                            assert(square_offset(b, x_pos as int, y_pos as int) == offset + 1)
                                by (nonlinear_arith)
                                requires
                                    offset == ry * b + rx,
                                    rx + 1 == b,
                                    square_offset(b, x_pos as int, y_pos as int) == (ry + 1) * b
                                        + 0,
                            ;
                        } else {
                            lemma_in_block(b, qy + 1, 0);
                            assert((qy + 1) * b == qy * b + b) by (nonlinear_arith);
                            assert(offset + 1 == b * b) by (nonlinear_arith)
                                requires
                                    offset == ry * b + rx,
                                    rx + 1 == b,
                                    ry + 1 == b,
                            ;
                        }
                    }
                    match position_new {
                        Some(next) => {
                            assert(all.skip(offset + 1) =~= all.skip(offset).drop_first());
                        },
                        None => {
                            assert(Seq::<(int, int)>::empty() =~= all.skip(offset).drop_first());
                        },
                    }
                }
                self.position = position_new;
                Some(position)
            },
            None => None,
        }
    }

    fn size_hint(&self) -> (r: (usize, Option<usize>)) {
        let number = match self.position {
            Some(position) => {
                let block = SQUARE_SIZE as usize;
                let x = position.x_usize();
                let y = position.y_usize();
                proof {
                    let b = block as int;
                    let rx = x as int % b;
                    let ry = y as int % b;
                    lemma_side_bound(SQUARE_SIZE);
                    lemma_block(b, x as int);
                    lemma_block(b, y as int);
                    assert(0 <= ry * b && ry * b + rx < b * b) by (nonlinear_arith)
                        requires
                            0 <= ry < b,
                            0 <= rx < b,
                    ;
                }
                block * block - ((y % block) * block + x % block)
            },
            None => 0,
        };
        (number, Some(number))
    }
}

/// A direction in which the cursor of the search moves.
#[derive(Debug, Copy, Clone, PartialEq, Eq, Structural, PartialOrd, Ord, Hash)]
pub enum Direction {
    /// Towards the last cell.
    Forward,
    /// Towards the first cell.
    Backward,
}

/// Where the cursor of the search stands.
pub enum Cursor {
    /// Before the first cell.
    AtStart,
    /// On the cell at these coordinates.
    AtCell(int, int),
    /// Behind the last cell.
    AtEnd,
}

/// Where a cursor at `cursor` stands after one move in direction `d`, on a
/// grid of side `side`, whose cells come line by line.
pub open spec fn move_cursor(cursor: Cursor, d: Direction, side: int) -> Cursor {
    match (cursor, d) {
        (Cursor::AtStart, Direction::Forward) => if side > 0 {
            Cursor::AtCell(0, 0)
        } else {
            Cursor::AtEnd
        },
        (Cursor::AtStart, Direction::Backward) => Cursor::AtStart,
        (Cursor::AtCell(x, y), Direction::Forward) => if x + 1 < side {
            Cursor::AtCell(x + 1, y)
        } else if y + 1 < side {
            Cursor::AtCell(0, y + 1)
        } else {
            Cursor::AtEnd
        },
        (Cursor::AtCell(x, y), Direction::Backward) => if x > 0 {
            Cursor::AtCell(x - 1, y)
        } else if y > 0 {
            Cursor::AtCell(side - 1, y - 1)
        } else {
            Cursor::AtStart
        },
        (Cursor::AtEnd, Direction::Forward) => Cursor::AtEnd,
        (Cursor::AtEnd, Direction::Backward) => if side > 0 {
            Cursor::AtCell(side - 1, side - 1)
        } else {
            Cursor::AtStart
        },
    }
}

/// The position on which `cursor` stands, if it stands on one.
pub open spec fn cursor_position(cursor: Cursor) -> Option<(int, int)> {
    match cursor {
        Cursor::AtCell(x, y) => Some((x, y)),
        _ => None,
    }
}

#[derive(Debug, Copy, Clone, PartialEq, Eq, PartialOrd, Ord, Hash)]
enum ElementTracker<T> {
    First,
    Element(T),
    Last,
}

/// The cursor of the search: it walks over the cells of a grid line by line,
/// forward and backward, and knows when it has left the grid at either end.
#[derive(Debug, Clone, PartialEq, Eq, PartialOrd, Ord, Hash)]
pub struct BackTracePositionTracker<const SQUARE_SIZE: u8> {
    el: ElementTracker<CellPosition<SQUARE_SIZE>>,
}

impl<const SQUARE_SIZE: u8> View for BackTracePositionTracker<SQUARE_SIZE> {
    type V = Cursor;

    closed spec fn view(&self) -> Cursor {
        match self.el {
            ElementTracker::First => Cursor::AtStart,
            ElementTracker::Element(p) => Cursor::AtCell(p@.0, p@.1),
            ElementTracker::Last => Cursor::AtEnd,
        }
    }
}

impl<const SQUARE_SIZE: u8> Default for BackTracePositionTracker<SQUARE_SIZE> {
    /// The cursor before the first cell.
    fn default() -> (r: Self)
        ensures
            r@ == Cursor::AtStart,
    {
        Self::new()
    }
}

impl<const SQUARE_SIZE: u8> BackTracePositionTracker<SQUARE_SIZE> {
    /// The cursor before the first cell.
    pub fn new() -> (r: Self)
        ensures
            r@ == Cursor::AtStart,
    {
        Self { el: ElementTracker::First }
    }

    /// Moves forward; see [`BackTracePositionTracker::move_pos`].
    pub fn next_element(&mut self) -> (r: Option<CellPosition<SQUARE_SIZE>>)
        ensures
            final(self)@ == move_cursor(old(self)@, Direction::Forward, side(SQUARE_SIZE)),
            r is Some <==> final(self)@ is AtCell,
            r matches Some(p) ==> cursor_position(final(self)@) == Some(p@),
    {
        self.move_pos(Direction::Forward)
    }

    /// Moves forward, as [`BackTracePositionTracker::next_element`] does.
    pub fn next(&mut self) -> (r: Option<CellPosition<SQUARE_SIZE>>)
        ensures
            final(self)@ == move_cursor(old(self)@, Direction::Forward, side(SQUARE_SIZE)),
            r is Some <==> final(self)@ is AtCell,
            r matches Some(p) ==> cursor_position(final(self)@) == Some(p@),
    {
        self.next_element()
    }

    /// Moves backward; see [`BackTracePositionTracker::move_pos`].
    pub fn previous(&mut self) -> (r: Option<CellPosition<SQUARE_SIZE>>)
        ensures
            final(self)@ == move_cursor(old(self)@, Direction::Backward, side(SQUARE_SIZE)),
            r is Some <==> final(self)@ is AtCell,
            r matches Some(p) ==> cursor_position(final(self)@) == Some(p@),
    {
        self.move_pos(Direction::Backward)
    }

    /// Moves the cursor by one cell in direction `d` and returns the position
    /// it then stands on; none where it has left the grid or was already
    /// outside it at that end.
    pub fn move_pos(&mut self, d: Direction) -> (r: Option<CellPosition<SQUARE_SIZE>>)
        ensures
            final(self)@ == move_cursor(old(self)@, d, side(SQUARE_SIZE)),
            r is Some <==> final(self)@ is AtCell,
            r matches Some(p) ==> cursor_position(final(self)@) == Some(p@),
    {
        proof {
            lemma_side_bound(SQUARE_SIZE);
        }
        let side = game_side(SQUARE_SIZE);
        match self.el {
            ElementTracker::First => match d {
                Direction::Forward => {
                    match CellPosition::new_from_number(0, 0) {
                        Some(pos) => {
                            self.el = ElementTracker::Element(pos);
                            Some(pos)
                        },
                        None => {
                            self.el = ElementTracker::Last;
                            None
                        },
                    }
                },
                Direction::Backward => None,
            },
            ElementTracker::Element(mut pos) => match d {
                Direction::Forward => {
                    let x = pos.x_usize() + 1;
                    match pos.x_mut().set_number(x) {
                        Ok(()) => {
                            self.el = ElementTracker::Element(pos);
                            Some(pos)
                        },
                        Err(_) => {
                            let y = pos.y_usize() + 1;
                            match CellPosition::new_from_number(0, y) {
                                Some(next) => {
                                    self.el = ElementTracker::Element(next);
                                    Some(next)
                                },
                                None => {
                                    self.el = ElementTracker::Last;
                                    None
                                },
                            }
                        },
                    }
                },
                Direction::Backward => {
                    let x = pos.x_usize().checked_sub(1);
                    match x {
                        Some(x) => {
                            let moved = CellPosition::new_from_number(x, pos.y_usize());
                            self.el = ElementTracker::Element(moved.unwrap());
                            moved
                        },
                        None => {
                            let x = side - 1;
                            let y = pos.y_usize().checked_sub(1);
                            match y {
                                Some(y) => {
                                    let moved = CellPosition::new_from_number(x, y);
                                    self.el = ElementTracker::Element(moved.unwrap());
                                    moved
                                },
                                None => {
                                    self.el = ElementTracker::First;
                                    None
                                },
                            }
                        },
                    }
                },
            },
            ElementTracker::Last => match d {
                Direction::Forward => None,
                Direction::Backward => {
                    if side == 0 {
                        self.el = ElementTracker::First;
                        None
                    } else {
                        let pos = CellPosition::new_from_number(side - 1, side - 1);
                        self.el = ElementTracker::Element(pos.unwrap());
                        pos
                    }
                },
            },
        }
    }
}

} // verus!
