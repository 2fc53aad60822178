//! The size of a game, as a value.

use vstd::prelude::*;

verus! {

/// The size of a game, given by the side of one block.
#[derive(Debug, Clone, Copy, PartialEq, Eq, PartialOrd, Ord, Hash)]
pub struct GameSize {
    square_size: usize,
}

impl View for GameSize {
    type V = int;

    closed spec fn view(&self) -> int {
        self.square_size as int
    }
}

/// `size` is the square of a whole number.
pub open spec fn is_square(size: int) -> bool {
    exists|k: int| 0 <= k && #[trigger] (k * k) == size
}

/// Squares grow with their roots.
proof fn lemma_square_order(a: int, b: int)
    requires
        0 <= a <= b,
    ensures
        a * a <= b * b,
{
    assert(a * a <= b * b) by (nonlinear_arith)
        requires
            0 <= a <= b,
    ;
}

impl GameSize {
    /// The size of a game whose blocks have the side `square_size`.
    pub fn new_square_size(square_size: usize) -> (r: Self)
        ensures
            r@ == square_size,
    {
        Self { square_size }
    }

    /// The size of a game whose grid has the side `size`, which has to be the
    /// square of a whole number; none otherwise.
    pub fn new(size: usize) -> (r: Option<Self>)
        ensures
            r is Some <==> is_square(size as int),
            r matches Some(g) ==> 0 <= g@ && g@ * g@ == size,
    {
        let mut low: usize = 0;
        let mut high: usize = size;
        assert(0 * 0 <= size < (size + 1) * (size + 1)) by (nonlinear_arith)
            requires
                0 <= size,
        ;
        while low < high
            invariant
                low <= high <= size,
                low * low <= size < (high + 1) * (high + 1),
            decreases high - low,
        {
            let gap = high - low;
            let middle = low + gap / 2 + gap % 2;
            let fits = match middle.checked_mul(middle) {
                Some(square) => square <= size,
                None => false,
            };
            if fits {
                low = middle;
            } else {
                high = middle - 1;
            }
        }
        let exact = match low.checked_mul(low) {
            Some(square) => square == size,
            None => false,
        };
        if exact {
            assert(is_square(size as int)) by {
                assert(low as int * low as int == size);
            }
            Some(Self { square_size: low })
        } else {
            assert(!is_square(size as int)) by {
                if is_square(size as int) {
                    let k = choose|k: int| 0 <= k && #[trigger] (k * k) == size as int;
                    if k <= low {
                        lemma_square_order(k, low as int);
                    } else {
                        lemma_square_order(low + 1, k);
                    }
                }
            }
            None
        }
    }

    /// The side of one block.
    pub fn square_size(&self) -> (r: usize)
        ensures
            r == self@,
    {
        self.square_size
    }

    /// The side of the grid: the square of the side of one block.
    pub fn game_size(&self) -> (r: usize)
        requires
            self@ * self@ <= usize::MAX,
        ensures
            r == self@ * self@,
    {
        self.square_size() * self.square_size()
    }

    /// The number of cells of the grid: the square of its side.
    pub fn cell_number(&self) -> (r: usize)
        requires
            self@ * self@ * (self@ * self@) <= usize::MAX,
        ensures
            r == self@ * self@ * (self@ * self@),
    {
        assert(self@ * self@ <= self@ * self@ * (self@ * self@)) by (nonlinear_arith)
            requires
                0 <= self@,
        ;
        self.game_size() * self.game_size()
    }
}

impl Default for GameSize {
    /// The size of the classic game: blocks of side `3`.
    fn default() -> (r: Self)
        ensures
            r@ == 3,
    {
        Self::new_square_size(3)
    }
}

} // verus!
