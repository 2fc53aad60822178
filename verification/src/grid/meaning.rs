//! What the verification and the search for possible numbers tell about
//! a grid.

use vstd::prelude::*;
use crate::cell::{allows, intersect};
use crate::grid::{
    all_columns, all_ready, all_rows, all_squares, candidates, classify, column_positions,
    conflict_order, consistent, entries, filled, first_conflict, free_values, given_only,
    has_strength, hints_only, holders, holds, in_range, is_not, lemma_all_regions, lemma_block,
    lemma_column, lemma_complete_grid, lemma_filter_all, lemma_filter_members,
    lemma_filter_no_duplicates, lemma_filter_nothing, lemma_regions, lemma_row, lemma_square,
    lemma_square_of, lemma_two_members, on_grid, peers, ready, region_complete, region_of,
    row_positions, searchable, square_positions, state_at, value_at, verify_grid, verify_region,
    verify_regions, without, Conflict, Entry, GridModel, Strength, VerificationResult,
};

verus! {

/// The cells of `region`, but for `skip`, that hold the number `v`: which
/// they are.
pub proof fn lemma_holders(
    grid: GridModel,
    region: Seq<(int, int)>,
    skip: Option<(int, int)>,
    v: int,
)
    requires
        region.no_duplicates(),
    ensures
        holders(grid, without(region, skip), v).no_duplicates(),
        forall|q: (int, int)| #[trigger]
            holders(grid, without(region, skip), v).contains(q) <==> region.contains(q) && Some(q)
                != skip && value_at(grid, q) == Some(v),
{
    let rest = without(region, skip);
    if let Some(p) = skip {
        lemma_filter_no_duplicates(region, is_not(p));
        lemma_filter_members(region, is_not(p));
    }
    lemma_filter_no_duplicates(rest, holds(grid, v));
    lemma_filter_members(rest, holds(grid, v));
}

/// What `first_conflict` finds: the smallest number that two cells hold.
pub proof fn lemma_first_conflict(grid: GridModel, region: Seq<(int, int)>, from: int, side: int)
    ensures
        first_conflict(grid, region, from, side) matches Some(v) ==> from <= v <= side && holders(
            grid,
            region,
            v,
        ).len() >= 2,
        first_conflict(grid, region, from, side) is None ==> forall|v: int|
            from <= v <= side ==> (#[trigger] holders(grid, region, v)).len() < 2,
    decreases side - from + 1,
{
    if from <= side && holders(grid, region, from).len() < 2 {
        lemma_first_conflict(grid, region, from + 1, side);
    }
}

/// Entries that are all given clash as hints, and the clash cites the first
/// two of them.
pub proof fn lemma_classify_given(list: Seq<Entry>)
    requires
        list.len() >= 2,
        forall|i: int| 0 <= i < list.len() ==> (#[trigger] list[i]).1 == Strength::Given,
    ensures
        classify(list) == Conflict::HintInconsistency(list[0].0, list[1].0),
{
    lemma_filter_all(list, has_strength(Strength::Given));
    lemma_filter_nothing(list, has_strength(Strength::Guess));
    lemma_filter_nothing(list, has_strength(Strength::Solution));
    assert(conflict_order(list) =~= list);
}

/// Where two cells of `region`, `skip` left out, hold the same number: the
/// conflict that is reported cites two different cells of the region that
/// hold one number; and where all cells of the region that hold a number
/// are given, it is a conflict of hints between the two cells cited.
pub proof fn lemma_region_conflict(
    grid: GridModel,
    region: Seq<(int, int)>,
    skip: Option<(int, int)>,
    side: int,
)
    requires
        region.no_duplicates(),
    ensures
        first_conflict(grid, without(region, skip), 1, side) matches Some(v) ==> exists|
            a: (int, int),
            b: (int, int),
        |
            #![trigger region.contains(a), region.contains(b)]
            region.contains(a) && region.contains(b) && a != b && Some(a) != skip && Some(b)
                != skip && 1 <= v <= side && value_at(grid, a) == Some(v) && value_at(grid, b)
                == Some(v) && (given_only(grid, region) ==> classify(
                entries(grid, holders(grid, without(region, skip), v)),
            ) == Conflict::HintInconsistency(a, b)),
{
    let rest = without(region, skip);
    lemma_first_conflict(grid, rest, 1, side);
    if let Some(v) = first_conflict(grid, rest, 1, side) {
        let found = holders(grid, rest, v);
        lemma_holders(grid, region, skip, v);
        assert(found.contains(found[0]));
        assert(found.contains(found[1]));
        if given_only(grid, region) {
            let list = entries(grid, found);
            assert forall|i: int| 0 <= i < list.len() implies (#[trigger] list[i]).1
                == Strength::Given by {
                assert(found.contains(found[i]));
                assert(region.contains(found[i]));
                assert(value_at(grid, found[i]) is Some);
            }
            lemma_classify_given(list);
        }
        assert(region.contains(found[0]) && region.contains(found[1]));
    }
}

/// What the search for free numbers in one region finds where it meets no
/// conflict: a number is free exactly if no cell of the region, `skip` left
/// out, holds it.
pub proof fn lemma_free_values(
    grid: GridModel,
    region: Seq<(int, int)>,
    skip: Option<(int, int)>,
    side: int,
)
    requires
        region.no_duplicates(),
        0 <= side,
    ensures
        free_values(grid, without(region, skip), side) is Ok <==> first_conflict(
            grid,
            without(region, skip),
            1,
            side,
        ) is None,
        free_values(grid, without(region, skip), side) matches Ok(free) ==> free.len() == side
            && (forall|v: int|
            1 <= v <= side ==> (#[trigger] allows(free, v) <==> forall|q: (int, int)|
                region.contains(q) && Some(q) != skip ==> value_at(grid, q) != Some(v))),
{
    let rest = without(region, skip);
    lemma_first_conflict(grid, rest, 1, side);
    if first_conflict(grid, rest, 1, side) is None {
        let free = free_values(grid, rest, side)->Ok_0;
        assert forall|v: int| 1 <= v <= side implies (#[trigger] allows(free, v) <==> forall|
            q: (int, int),
        |
            region.contains(q) && Some(q) != skip ==> value_at(grid, q) != Some(v)) by {
            lemma_holders(grid, region, skip, v);
            lemma_two_members(holders(grid, rest, v));
            if holders(grid, rest, v).len() == 0 {
                assert forall|q: (int, int)| region.contains(q) && Some(q) != skip implies value_at(
                    grid,
                    q,
                ) != Some(v) by {
                    assert(!holders(grid, rest, v).contains(q));
                }
            } else {
                let q = holders(grid, rest, v)[0];
                assert(holders(grid, rest, v).contains(q));
            }
        }
    }
}

/// What the search for the numbers that the cell at `p` can take finds.
/// Where it meets a conflict, two peers, none of them `p`, hold the same
/// number; and in a grid of hints it is a conflict of hints that cites two
/// such peers. Where it meets none, a number is possible exactly if no peer
/// of `p` holds it.
pub proof fn lemma_candidates(grid: GridModel, p: (int, int), block: int)
    requires
        0 < block,
        on_grid(p, block * block),
    ensures
        candidates(grid, p, block) matches Err(c) ==> exists|a: (int, int), b: (int, int)|
            #![trigger value_at(grid, a), value_at(grid, b)]
            on_grid(a, block * block) && on_grid(b, block * block) && peers(a, b, block) && a != p
                && b != p && value_at(grid, a) is Some && value_at(grid, a) == value_at(grid, b)
                && (hints_only(grid, block * block) ==> c == Conflict::HintInconsistency(a, b)),
        candidates(grid, p, block) matches Ok(possibility) ==> possibility.len() == block * block
            && (forall|v: int|
            1 <= v <= block * block ==> (#[trigger] allows(possibility, v) <==> forall|
                q: (int, int),
            |
                on_grid(q, block * block) && peers(p, q, block) ==> value_at(grid, q) != Some(v))),
{
    let side = block * block;
    let row = row_positions(side, p.1);
    let column = column_positions(side, p.0);
    let square = square_positions(block, p.0, p.1);
    lemma_regions(p, block);
    lemma_row(side, p.1);
    lemma_column(side, p.0);
    lemma_square(block, p.0, p.1);
    assert(region_of(row, p, block) && region_of(column, p, block) && region_of(square, p, block));
    lemma_region_conflict(grid, row, Some(p), side);
    lemma_region_conflict(grid, column, Some(p), side);
    lemma_region_conflict(grid, square, Some(p), side);
    lemma_free_values(grid, row, Some(p), side);
    lemma_free_values(grid, column, Some(p), side);
    lemma_free_values(grid, square, Some(p), side);
    let in_row = free_values(grid, without(row, Some(p)), side);
    let in_column = free_values(grid, without(column, Some(p)), side);
    let in_square = free_values(grid, without(square, Some(p)), side);
    match candidates(grid, p, block) {
        Err(c) => {
            let region = if in_row is Err {
                row
            } else if in_column is Err {
                column
            } else {
                square
            };
            assert(region_of(region, p, block));
            let (a, b) = choose|a: (int, int), b: (int, int)|
                #![trigger region.contains(a), region.contains(b)]
                region.contains(a) && region.contains(b) && a != b && a != p && b != p && value_at(
                    grid,
                    a,
                ) is Some && value_at(grid, a) == value_at(grid, b) && (given_only(grid, region)
                    ==> c == Conflict::HintInconsistency(a, b));
            assert(region.contains(a) && region.contains(b));
            assert(peers(a, b, block));
            if hints_only(grid, side) {
                assert forall|q: (int, int)|
                    region.contains(q) && (#[trigger] value_at(grid, q)) is Some implies state_at(
                    grid,
                    q,
                ) is Given by {
                    assert(region.contains(q) && region.contains(a));
                }
            }
            assert(value_at(grid, a) == value_at(grid, b));
        },
        Ok(possibility) => {
            let a = in_row->Ok_0;
            let b = in_column->Ok_0;
            let c = in_square->Ok_0;
            assert(possibility == intersect(intersect(a, b), c));
            assert forall|v: int| 1 <= v <= side implies (#[trigger] allows(possibility, v)
                <==> forall|q: (int, int)|
                on_grid(q, side) && peers(p, q, block) ==> value_at(grid, q) != Some(v)) by {
                assert(allows(possibility, v) <==> allows(a, v) && allows(b, v) && allows(c, v));
                if allows(possibility, v) {
                    assert forall|q: (int, int)| on_grid(q, side) && peers(p, q, block) implies value_at(
                        grid,
                        q,
                    ) != Some(v) by {
                        assert(row.contains(q) || column.contains(q) || square.contains(q));
                    }
                }
                if !allows(a, v) {
                    let q = choose|q: (int, int)|
                        row.contains(q) && Some(q) != Some(p) && value_at(grid, q) == Some(v);
                    assert(on_grid(q, side) && peers(p, q, block));
                }
                if !allows(b, v) {
                    let q = choose|q: (int, int)|
                        column.contains(q) && Some(q) != Some(p) && value_at(grid, q) == Some(v);
                    assert(on_grid(q, side) && peers(p, q, block));
                }
                if !allows(c, v) {
                    let q = choose|q: (int, int)|
                        square.contains(q) && Some(q) != Some(p) && value_at(grid, q) == Some(v);
                    assert(on_grid(q, side) && peers(p, q, block));
                }
            }
        },
    }
}

/// Where the verification of some regions meets a conflict, it is the
/// conflict of one of them; where it meets none, none of them has one.
pub proof fn lemma_verify_regions(grid: GridModel, regions: Seq<Seq<(int, int)>>, side: int)
    ensures
        verify_regions(grid, regions, side) matches Err(c) ==> exists|i: int|
            0 <= i < regions.len() && verify_region(grid, #[trigger] regions[i], side) == Err::<
                VerificationResult,
                Conflict,
            >(c),
        verify_regions(grid, regions, side) is Ok ==> forall|i: int|
            0 <= i < regions.len() ==> verify_region(grid, #[trigger] regions[i], side) is Ok,
    decreases regions.len(),
{
    if regions.len() > 0 {
        let rest = regions.drop_last();
        lemma_verify_regions(grid, rest, side);
        match verify_regions(grid, rest, side) {
            Err(c) => {
                let i = choose|i: int|
                    0 <= i < rest.len() && verify_region(grid, #[trigger] rest[i], side) == Err::<
                        VerificationResult,
                        Conflict,
                    >(c);
                assert(regions[i] == rest[i]);
            },
            Ok(_) => {
                if verify_regions(grid, regions, side) is Ok {
                    assert forall|i: int| 0 <= i < regions.len() implies verify_region(
                        grid,
                        #[trigger] regions[i],
                        side,
                    ) is Ok by {
                        if i < rest.len() {
                            assert(regions[i] == rest[i]);
                        }
                    }
                } else {
                    assert(regions[regions.len() - 1] == regions.last());
                }
            },
        }
    }
}

/// Conflict detection: in a grid of hints where two cells of one row hold
/// the same number, the verification reports a conflict of hints, and cites
/// two different given cells of one row that hold the same number.
pub proof fn lemma_clash_of_hints(grid: GridModel, block: int, a: (int, int), b: (int, int))
    requires
        0 < block,
        hints_only(grid, block * block),
        on_grid(a, block * block),
        on_grid(b, block * block),
        a != b,
        a.1 == b.1,
        value_at(grid, a) == value_at(grid, b),
        value_at(grid, a) matches Some(v) && 1 <= v <= block * block,
    ensures
        exists|c: (int, int), d: (int, int)|
            #![trigger value_at(grid, c), value_at(grid, d)]
            verify_grid(grid, block) == Err::<VerificationResult, Conflict>(
                Conflict::HintInconsistency(c, d),
            ) && c != d && c.1 == d.1 && on_grid(c, block * block) && on_grid(d, block * block)
                && state_at(grid, c) is Given && state_at(grid, d) is Given && value_at(grid, c)
                == value_at(grid, d),
{
    let side = block * block;
    let v = value_at(grid, a)->0;
    let rows = all_rows(side);
    let row = rows[a.1];
    lemma_row(side, a.1);
    lemma_holders(grid, row, None, v);
    assert(row.contains(a) && row.contains(b));
    let found = holders(grid, row, v);
    lemma_two_members(found);
    assert(found.contains(a) && found.contains(b));
    lemma_first_conflict(grid, row, 1, side);
    assert(verify_region(grid, row, side) is Err);
    lemma_verify_regions(grid, rows, side);
    let conflict = verify_regions(grid, rows, side)->Err_0;
    let i = choose|i: int|
        0 <= i < rows.len() && verify_region(grid, #[trigger] rows[i], side) == Err::<
            VerificationResult,
            Conflict,
        >(conflict);
    lemma_row(side, i);
    lemma_region_conflict(grid, rows[i], None, side);
    let w = first_conflict(grid, rows[i], 1, side)->0;
    let (c, d) = choose|c: (int, int), d: (int, int)|
        #![trigger rows[i].contains(c), rows[i].contains(d)]
        rows[i].contains(c) && rows[i].contains(d) && c != d && 1 <= w <= side && value_at(grid, c)
            == Some(w) && value_at(grid, d) == Some(w) && (given_only(grid, rows[i]) ==> classify(
            entries(grid, holders(grid, rows[i], w)),
        ) == Conflict::HintInconsistency(c, d));
    assert(rows[i].contains(c) && rows[i].contains(d));
    assert forall|q: (int, int)|
        rows[i].contains(q) && (#[trigger] value_at(grid, q)) is Some implies state_at(
        grid,
        q,
    ) is Given by {
        assert(on_grid(q, side));
    }
    assert(value_at(grid, c) is Some && value_at(grid, d) is Some);
    assert(value_at(grid, c) == value_at(grid, d));
}

/// A region of a filled grid without a clash holds every number once.
pub proof fn lemma_region_complete(grid: GridModel, region: Seq<(int, int)>, block: int)
    requires
        0 < block,
        filled(grid, block * block),
        consistent(grid, block),
        region.no_duplicates(),
        region.len() == block * block,
        forall|i: int| 0 <= i < region.len() ==> on_grid(#[trigger] region[i], block * block),
        forall|i: int, j: int|
            0 <= i < region.len() && 0 <= j < region.len() && i != j ==> peers(
                #[trigger] region[i],
                #[trigger] region[j],
                block,
            ),
    ensures
        verify_region(grid, region, block * block) == Ok::<VerificationResult, Conflict>(
            VerificationResult::Complete,
        ),
{
    let side = block * block;
    let numbers = region.map_values(|p: (int, int)| value_at(grid, p)->0);
    assert forall|i: int, j: int|
        0 <= i < numbers.len() && 0 <= j < numbers.len() && i != j implies numbers[i]
        != numbers[j] by {
        assert(peers(region[i], region[j], block));
        assert(value_at(grid, region[i]) != value_at(grid, region[j]));
    }
    numbers.unique_seq_to_set();
    vstd::set_lib::lemma_int_range(1, side + 1);
    let range = vstd::set_lib::set_int_range(1, side + 1);
    assert forall|v: int| numbers.to_set().contains(v) implies range.contains(v) by {
        let i = choose|i: int| 0 <= i < numbers.len() && numbers[i] == v;
        assert(on_grid(region[i], side));
    }
    vstd::set_lib::lemma_len_subset(numbers.to_set(), range);
    vstd::set_lib::lemma_subset_equality(numbers.to_set(), range);
    assert forall|v: int| 1 <= v <= side implies (#[trigger] holders(grid, region, v)).len()
        == 1 by {
        let found = holders(grid, region, v);
        lemma_holders(grid, region, None, v);
        lemma_two_members(found);
        assert(range.contains(v));
        assert(numbers.to_set().contains(v));
        let i = choose|i: int| 0 <= i < numbers.len() && numbers[i] == v;
        assert(on_grid(region[i], side));
        assert(region.contains(region[i]));
        assert(found.contains(region[i]));
        if found.len() >= 2 {
            let (a, b) = choose|a: (int, int), b: (int, int)|
                #![auto]
                found.contains(a) && found.contains(b) && a != b;
            let ia = choose|ia: int| 0 <= ia < region.len() && region[ia] == a;
            let ib = choose|ib: int| 0 <= ib < region.len() && region[ib] == b;
            assert(peers(region[ia], region[ib], block));
            assert(value_at(grid, a) != value_at(grid, b));
        }
    }
    lemma_first_conflict(grid, region, 1, side);
}

/// Regions that are complete, each of them, verify as complete.
pub proof fn lemma_regions_complete(grid: GridModel, regions: Seq<Seq<(int, int)>>, side: int)
    requires
        forall|i: int|
            0 <= i < regions.len() ==> verify_region(grid, #[trigger] regions[i], side) == Ok::<
                VerificationResult,
                Conflict,
            >(VerificationResult::Complete),
    ensures
        verify_regions(grid, regions, side) == Ok::<VerificationResult, Conflict>(
            VerificationResult::Complete,
        ),
    decreases regions.len(),
{
    if regions.len() > 0 {
        let rest = regions.drop_last();
        assert forall|i: int| 0 <= i < rest.len() implies verify_region(
            grid,
            #[trigger] rest[i],
            side,
        ) == Ok::<VerificationResult, Conflict>(VerificationResult::Complete) by {
            assert(rest[i] == regions[i]);
        }
        lemma_regions_complete(grid, rest, side);
        assert(regions.last() == regions[regions.len() - 1]);
    }
}

/// A filled grid without a clash verifies as complete.
pub proof fn lemma_filled_grid_verifies(grid: GridModel, block: int)
    requires
        0 < block,
        filled(grid, block * block),
        consistent(grid, block),
    ensures
        verify_grid(grid, block) == Ok::<VerificationResult, Conflict>(
            VerificationResult::Complete,
        ),
{
    let side = block * block;
    assert(0 < side) by (nonlinear_arith)
        requires
            0 < block,
            side == block * block,
    ;
    assert forall|i: int| 0 <= i < side implies verify_region(
        grid,
        #[trigger] all_rows(side)[i],
        side,
    ) == Ok::<VerificationResult, Conflict>(VerificationResult::Complete) by {
        lemma_row(side, i);
        let region = all_rows(side)[i];
        assert forall|k: int| 0 <= k < region.len() implies on_grid(#[trigger] region[k], side) by {
            assert(region.contains(region[k]));
        }
        lemma_region_complete(grid, region, block);
    }
    lemma_regions_complete(grid, all_rows(side), side);
    assert forall|i: int| 0 <= i < side implies verify_region(
        grid,
        #[trigger] all_columns(side)[i],
        side,
    ) == Ok::<VerificationResult, Conflict>(VerificationResult::Complete) by {
        lemma_column(side, i);
        let region = all_columns(side)[i];
        assert forall|k: int| 0 <= k < region.len() implies on_grid(#[trigger] region[k], side) by {
            assert(region.contains(region[k]));
        }
        lemma_region_complete(grid, region, block);
    }
    lemma_regions_complete(grid, all_columns(side), side);
    assert forall|i: int| 0 <= i < side implies verify_region(
        grid,
        #[trigger] all_squares(block)[i],
        side,
    ) == Ok::<VerificationResult, Conflict>(VerificationResult::Complete) by {
        lemma_block(block, i);
        let x = (i % block) * block;
        let y = (i / block) * block;
        assert(0 <= x && x + block <= side && 0 <= y && y + block <= side) by (nonlinear_arith)
            requires
                0 <= i % block < block,
                0 <= i / block < block,
                x == (i % block) * block,
                y == (i / block) * block,
                side == block * block,
        ;
        lemma_square(block, x, y);
        let region = all_squares(block)[i];
        assert forall|k: int| 0 <= k < region.len() implies on_grid(#[trigger] region[k], side) by {
            assert(region.contains(region[k]));
        }
        assert forall|k: int, j: int|
            0 <= k < region.len() && 0 <= j < region.len() && k != j implies peers(
            #[trigger] region[k],
            #[trigger] region[j],
            block,
        ) by {
            assert(region.contains(region[k]));
            assert(region.contains(region[j]));
        }
        lemma_region_complete(grid, region, block);
    }
    lemma_regions_complete(grid, all_squares(block), side);
}

/// In a complete region every cell holds a number of the grid.
pub proof fn lemma_complete_region_filled(grid: GridModel, region: Seq<(int, int)>, side: int)
    requires
        0 <= side,
        region.no_duplicates(),
        region.len() == side,
        region_complete(grid, region, side),
    ensures
        forall|i: int|
            0 <= i < region.len() ==> ((#[trigger] value_at(grid, region[i])) matches Some(v) && 1
                <= v <= side),
{
    let found = Seq::new(side as nat, |k: int| holders(grid, region, k + 1)[0]);
    assert forall|k: int| 0 <= k < side implies region.contains(#[trigger] found[k]) && value_at(
        grid,
        found[k],
    ) == Some(k + 1) by {
        lemma_holders(grid, region, None, k + 1);
        assert(holders(grid, region, k + 1).len() == 1);
        assert(holders(grid, region, k + 1).contains(found[k]));
    }
    assert(found.no_duplicates());
    found.unique_seq_to_set();
    region.unique_seq_to_set();
    assert forall|p: (int, int)| found.to_set().contains(p) implies region.to_set().contains(p) by {
        let k = choose|k: int| 0 <= k < found.len() && found[k] == p;
        assert(region.contains(found[k]));
    }
    vstd::seq_lib::seq_to_set_is_finite(region);
    vstd::set_lib::lemma_len_subset(found.to_set(), region.to_set());
    vstd::set_lib::lemma_subset_equality(found.to_set(), region.to_set());
    assert forall|i: int| 0 <= i < region.len() implies ((#[trigger] value_at(
        grid,
        region[i],
    )) matches Some(v) && 1 <= v <= side) by {
        assert(region.to_set().contains(region[i]));
        assert(found.to_set().contains(region[i]));
        let k = choose|k: int| 0 <= k < found.len() && found[k] == region[i];
        assert(value_at(grid, found[k]) == Some(k + 1));
    }
}

/// A grid that verifies as complete is filled and without a clash, where
/// its numbers are numbers of the grid.
pub proof fn lemma_verified_grid_is_filled(grid: GridModel, block: int)
    requires
        0 < block,
        in_range(grid, block * block),
        verify_grid(grid, block) == Ok::<VerificationResult, Conflict>(
            VerificationResult::Complete,
        ),
    ensures
        filled(grid, block * block),
        consistent(grid, block),
{
    let side = block * block;
    assert(0 < side) by (nonlinear_arith)
        requires
            0 < block,
            side == block * block,
    ;
    crate::grid::lemma_complete_grid(grid, block);
    assert forall|p: (int, int)| on_grid(p, side) implies ((#[trigger] value_at(
        grid,
        p,
    )) matches Some(v) && 1 <= v <= side) by {
        let row = all_rows(side)[p.1];
        lemma_row(side, p.1);
        assert(region_complete(grid, row, side));
        lemma_complete_region_filled(grid, row, side);
        assert(row[p.0] == p);
    }
    assert forall|p: (int, int), q: (int, int)|
        #![trigger value_at(grid, p), value_at(grid, q)]
        on_grid(p, side) && on_grid(q, side) && peers(p, q, block) && value_at(
            grid,
            p,
        ) is Some implies value_at(grid, p) != value_at(grid, q) by {
        if value_at(grid, p) == value_at(grid, q) {
            let v = value_at(grid, p)->0;
            lemma_square_of(p, block);
            let region = if p.1 == q.1 {
                all_rows(side)[p.1]
            } else if p.0 == q.0 {
                all_columns(side)[p.0]
            } else {
                all_squares(block)[(p.1 / block) * block + p.0 / block]
            };
            lemma_row(side, p.1);
            lemma_column(side, p.0);
            lemma_square(block, p.0, p.1);
            assert(region_complete(grid, region, side));
            assert(region.contains(p) && region.contains(q));
            lemma_holders(grid, region, None, v);
            lemma_two_members(holders(grid, region, v));
            assert(holders(grid, region, v).contains(p) && holders(grid, region, v).contains(q));
        }
    }
}

/// Conflict detection: the verification reports a conflict exactly if two
/// peers hold the same number.
pub proof fn lemma_verification_finds_clashes(grid: GridModel, block: int)
    requires
        0 < block,
        in_range(grid, block * block),
    ensures
        verify_grid(grid, block) is Err <==> !consistent(grid, block),
{
    let side = block * block;
    assert(0 < side) by (nonlinear_arith)
        requires
            0 < block,
            side == block * block,
    ;
    lemma_verify_regions(grid, all_rows(side), side);
    lemma_verify_regions(grid, all_columns(side), side);
    lemma_verify_regions(grid, all_squares(block), side);
    if verify_grid(grid, block) is Err {
        let regions = if verify_regions(grid, all_rows(side), side) is Err {
            all_rows(side)
        } else if verify_regions(grid, all_columns(side), side) is Err {
            all_columns(side)
        } else {
            all_squares(block)
        };
        let conflict = verify_regions(grid, regions, side)->Err_0;
        let i = choose|i: int|
            0 <= i < regions.len() && verify_region(grid, #[trigger] regions[i], side) == Err::<
                VerificationResult,
                Conflict,
            >(conflict);
        let region = regions[i];
        lemma_all_regions(block, i);
        lemma_region_conflict(grid, region, None, side);
        let w = first_conflict(grid, region, 1, side)->0;
        let (a, b) = choose|a: (int, int), b: (int, int)|
            #![trigger region.contains(a), region.contains(b)]
            region.contains(a) && region.contains(b) && a != b && 1 <= w <= side && value_at(
                grid,
                a,
            ) == Some(w) && value_at(grid, b) == Some(w);
        assert(region.contains(a) && region.contains(b));
        assert(peers(a, b, block) && on_grid(a, side) && on_grid(b, side));
        assert(value_at(grid, a) == value_at(grid, b));
        assert(!consistent(grid, block));
    }
    if !consistent(grid, block) {
        let (p, q) = choose|p: (int, int), q: (int, int)|
            #![trigger value_at(grid, p), value_at(grid, q)]
            on_grid(p, side) && on_grid(q, side) && peers(p, q, block) && value_at(
                grid,
                p,
            ) is Some && !(value_at(grid, p) != value_at(grid, q));
        let v = value_at(grid, p)->0;
        lemma_square_of(p, block);
        let regions = if p.1 == q.1 {
            all_rows(side)
        } else if p.0 == q.0 {
            all_columns(side)
        } else {
            all_squares(block)
        };
        let i = if p.1 == q.1 {
            p.1
        } else if p.0 == q.0 {
            p.0
        } else {
            (p.1 / block) * block + p.0 / block
        };
        let region = regions[i];
        lemma_row(side, p.1);
        lemma_column(side, p.0);
        lemma_square(block, p.0, p.1);
        assert(region.contains(p) && region.contains(q));
        lemma_holders(grid, region, None, v);
        lemma_two_members(holders(grid, region, v));
        assert(holders(grid, region, v).contains(p) && holders(grid, region, v).contains(q));
        lemma_first_conflict(grid, region, 1, side);
        assert(verify_region(grid, region, side) is Err);
    }
}

/// In a grid of ready cells every number is a number of the grid.
pub proof fn lemma_ready_in_range(grid: GridModel, block: int)
    requires
        all_ready(grid, block),
    ensures
        in_range(grid, block * block),
{
    assert forall|p: (int, int)| on_grid(p, block * block) implies ((#[trigger] value_at(
        grid,
        p,
    )) matches Some(v) ==> 1 <= v <= block * block) by {
        assert(ready(state_at(grid, p), block * block));
    }
}

/// A grid of ready cells in which the verification finds no conflict is one
/// that a search can take.
pub proof fn lemma_searchable(grid: GridModel, block: int)
    requires
        all_ready(grid, block),
        verify_grid(grid, block) is Ok,
    ensures
        searchable(grid, block),
{
    lemma_ready_in_range(grid, block);
    lemma_verification_finds_clashes(grid, block);
}

} // verus!
