//! The rows, columns and blocks of a grid as sets of positions.

use vstd::arithmetic::div_mod::lemma_fundamental_div_mod_converse;
use vstd::prelude::*;
use crate::grid::{
    all_columns, all_rows, all_squares, column_positions, lemma_block, on_grid, peers,
    row_positions, square_positions,
};

verus! {

/// `region` is the row, the column or the block of `p`.
pub open spec fn region_of(region: Seq<(int, int)>, p: (int, int), block: int) -> bool {
    region == row_positions(block * block, p.1) || region == column_positions(block * block, p.0)
        || region == square_positions(block, p.0, p.1)
}

/// `region` holds positions of the grid, each once, and any two of them are
/// peers.
pub open spec fn proper_region(region: Seq<(int, int)>, block: int) -> bool {
    &&& region.no_duplicates()
    &&& region.len() == block * block
    &&& forall|a: (int, int)| #[trigger] region.contains(a) ==> on_grid(a, block * block)
    &&& forall|a: (int, int), b: (int, int)|
        #![trigger region.contains(a), region.contains(b)]
        region.contains(a) && region.contains(b) && a != b ==> peers(a, b, block)
}

/// A row holds the positions of its height, each once.
pub proof fn lemma_row(side: int, y: int)
    requires
        0 <= side,
    ensures
        row_positions(side, y).no_duplicates(),
        forall|q: (int, int)|
            #[trigger] row_positions(side, y).contains(q) <==> 0 <= q.0 < side && q.1 == y,
{
    let row = row_positions(side, y);
    assert forall|q: (int, int)| 0 <= q.0 < side && q.1 == y implies #[trigger] row.contains(
        q,
    ) by {
        assert(row[q.0] == q);
    }
}

/// A column holds the positions of its place, each once.
pub proof fn lemma_column(side: int, x: int)
    requires
        0 <= side,
    ensures
        column_positions(side, x).no_duplicates(),
        forall|q: (int, int)|
            #[trigger] column_positions(side, x).contains(q) <==> 0 <= q.1 < side && q.0 == x,
{
    let column = column_positions(side, x);
    assert forall|q: (int, int)| 0 <= q.1 < side && q.0 == x implies #[trigger] column.contains(
        q,
    ) by {
        assert(column[q.1] == q);
    }
}

/// A block holds the positions that share its quotients, each once.
pub proof fn lemma_square(block: int, x: int, y: int)
    requires
        0 < block,
        0 <= x < block * block,
        0 <= y < block * block,
    ensures
        square_positions(block, x, y).no_duplicates(),
        forall|q: (int, int)|
            #[trigger] square_positions(block, x, y).contains(q) <==> on_grid(q, block * block)
                && q.0 / block == x / block && q.1 / block == y / block,
{
    let square = square_positions(block, x, y);
    let bx = x / block;
    let by = y / block;
    lemma_block(block, x);
    lemma_block(block, y);
    assert forall|i: int| 0 <= i < block * block implies on_grid(#[trigger] square[i], block * block)
        && square[i].0 / block == bx && square[i].1 / block == by && i == (square[i].1 % block)
        * block + square[i].0 % block by {
        lemma_block(block, i);
        lemma_fundamental_div_mod_converse(bx * block + i % block, block, bx, i % block);
        lemma_fundamental_div_mod_converse(by * block + i / block, block, by, i / block);
        assert(bx * block + block <= block * block);
        assert(by * block + block <= block * block);
    }
    assert forall|q: (int, int)|
        on_grid(q, block * block) && q.0 / block == bx && q.1 / block == by implies 
        #[trigger] square.contains(q) by {
        lemma_block(block, q.0);
        lemma_block(block, q.1);
        let i = (q.1 % block) * block + q.0 % block;
        assert(0 <= i < block * block) by (nonlinear_arith)
            requires
                i == (q.1 % block) * block + q.0 % block,
                0 <= q.1 % block < block,
                0 <= q.0 % block < block,
        ;
        lemma_fundamental_div_mod_converse(i, block, q.1 % block, q.0 % block);
        assert(square[i] == q);
    }
    assert forall|i: int, j: int|
        0 <= i < square.len() && 0 <= j < square.len() && i != j implies square[i] != square[j] by {
        assert(on_grid(square[i], block * block));
        assert(on_grid(square[j], block * block));
    }
}

/// The three regions of a position hold its peers and itself, and nothing
/// else; none of them holds a position twice.
pub proof fn lemma_regions(p: (int, int), block: int)
    requires
        0 < block,
        on_grid(p, block * block),
    ensures
        forall|region: Seq<(int, int)>| #[trigger]
            region_of(region, p, block) ==> region.no_duplicates(),
        forall|region: Seq<(int, int)>, a: (int, int), b: (int, int)|
            #![trigger region_of(region, p, block), region.contains(a), region.contains(b)]
            region_of(region, p, block) && region.contains(a) && region.contains(b) && a != b
                ==> peers(a, b, block) && on_grid(a, block * block) && on_grid(b, block * block),
        forall|q: (int, int)|
            on_grid(q, block * block) && #[trigger] peers(p, q, block) ==> row_positions(
                block * block,
                p.1,
            ).contains(q) || column_positions(block * block, p.0).contains(q) || square_positions(
                block,
                p.0,
                p.1,
            ).contains(q),
{
    lemma_row(block * block, p.1);
    lemma_column(block * block, p.0);
    lemma_square(block, p.0, p.1);
}

/// The block of a position is one of the blocks of the grid.
pub proof fn lemma_square_of(p: (int, int), block: int)
    requires
        0 < block,
        on_grid(p, block * block),
    ensures
        0 <= (p.1 / block) * block + p.0 / block < block * block,
        all_squares(block)[(p.1 / block) * block + p.0 / block] == square_positions(
            block,
            p.0,
            p.1,
        ),
{
    let i = (p.1 / block) * block + p.0 / block;
    lemma_block(block, p.0);
    lemma_block(block, p.1);
    assert(0 <= i < block * block) by (nonlinear_arith)
        requires
            i == (p.1 / block) * block + p.0 / block,
            0 <= p.1 / block < block,
            0 <= p.0 / block < block,
    ;
    lemma_fundamental_div_mod_converse(i, block, p.1 / block, p.0 / block);
    let x = (i % block) * block;
    let y = (i / block) * block;
    lemma_fundamental_div_mod_converse(x, block, p.0 / block, 0);
    lemma_fundamental_div_mod_converse(y, block, p.1 / block, 0);
    assert(square_positions(block, x, y) =~= square_positions(block, p.0, p.1));
}

/// The rows, the columns and the blocks of a grid hold positions of the
/// grid, each once, and any two positions of one of them are peers.
pub proof fn lemma_all_regions(block: int, i: int)
    requires
        0 < block,
        0 <= i < block * block,
    ensures
        proper_region(all_rows(block * block)[i], block),
        proper_region(all_columns(block * block)[i], block),
        proper_region(all_squares(block)[i], block),
{
    let side = block * block;
    lemma_row(side, i);
    lemma_column(side, i);
    lemma_block(block, i);
    let x = (i % block) * block;
    let y = (i / block) * block;
    assert(0 <= x && x + block <= side && 0 <= y && y + block <= side) by (nonlinear_arith)
        requires
            0 <= i % block < block,
            0 <= i / block < block,
            x == (i % block) * block,
            y == (i / block) * block,
            side == block * block,
    ;
    lemma_square(block, x, y);
}

} // verus!
