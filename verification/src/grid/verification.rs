//! Whether a grid is consistent and complete, and what is possible in a cell.

use vstd::prelude::*;
use vstd::string::StringExecFns;
use crate::cell::{
    game_side, intersect, lemma_side_bound, lists, side, CellModel, CellNumber, CellPossibilities,
    CellState,
};
use crate::grid::{
    column_positions, lemma_block, position_text, row_positions, square_positions, state_at,
    CellPosition, Column, GridModel, Row, Square, Sudoku, SudokuIter,
};

verus! {

/// How firmly a cell holds its number.
#[derive(Debug, Clone, Copy, PartialEq, Eq, Structural, PartialOrd, Ord, Hash)]
pub enum Strength {
    /// The number was given with the puzzle.
    Given,
    /// The number is being tried by the search.
    Guess,
    /// The number was found by a solver or noted in an empty cell.
    Solution,
}

/// How firmly a cell in state `state` holds its number.
pub open spec fn strength(state: CellModel) -> Strength {
    match state {
        CellModel::Given(_) => Strength::Given,
        CellModel::Guess(_) => Strength::Guess,
        _ => Strength::Solution,
    }
}

/// A position together with the strength of the cell there.
pub type Entry = ((int, int), Strength);

/// Two cells of one region that hold the same number.
pub enum Conflict {
    /// Two given numbers.
    HintInconsistency((int, int), (int, int)),
    /// Two numbers that are given or solved, not both given.
    WrongSolution((int, int), (int, int)),
    /// Two numbers, one of them a guess.
    WrongGuess((int, int), (int, int)),
}

/// Two cells of one region hold the same number. The first position is that
/// of the firmer cell.
#[derive(Debug, Clone, Copy, PartialEq, Eq, PartialOrd, Ord, Hash)]
#[non_exhaustive]
pub enum VerificationError<const SQUARE_SIZE: u8> {
    /// Two given numbers are the same.
    HintInconsistency(CellPosition<SQUARE_SIZE>, CellPosition<SQUARE_SIZE>),
    /// A solved number is the same as a given or another solved one.
    WrongSolution(CellPosition<SQUARE_SIZE>, CellPosition<SQUARE_SIZE>),
    /// A guess is the same as another number.
    WrongGuess(CellPosition<SQUARE_SIZE>, CellPosition<SQUARE_SIZE>),
}

impl<const SQUARE_SIZE: u8> View for VerificationError<SQUARE_SIZE> {
    type V = Conflict;

    open spec fn view(&self) -> Conflict {
        match self {
            VerificationError::HintInconsistency(a, b) => Conflict::HintInconsistency(a@, b@),
            VerificationError::WrongSolution(a, b) => Conflict::WrongSolution(a@, b@),
            VerificationError::WrongGuess(a, b) => Conflict::WrongGuess(a@, b@),
        }
    }
}

/// A conflict as text.
pub open spec fn conflict_text(conflict: Conflict) -> Seq<char> {
    match conflict {
        Conflict::WrongGuess(a, b) => "wrong guess between "@ + position_text(b) + " and "@
            + position_text(a),
        Conflict::WrongSolution(a, b) => "wrong solution between "@ + position_text(b) + " and "@
            + position_text(a),
        Conflict::HintInconsistency(a, b) => "hints are inconsistante between "@ + position_text(a)
            + " and "@ + position_text(b),
    }
}

impl<const SQUARE_SIZE: u8> VerificationError<SQUARE_SIZE> {
    /// The message of this error: what clashes, and where.
    pub fn to_string(&self) -> (text: String)
        ensures
            text@ == conflict_text(self@),
    {
        let (mut text, first, second) = match self {
            VerificationError::WrongGuess(a, b) => (String::from_str("wrong guess between "), b, a),
            VerificationError::WrongSolution(a, b) => (
                String::from_str("wrong solution between "),
                b,
                a,
            ),
            VerificationError::HintInconsistency(a, b) => (
                String::from_str("hints are inconsistante between "),
                a,
                b,
            ),
        };
        let ghost head = text@;
        first.append_to(&mut text);
        text.append(" and ");
        second.append_to(&mut text);
        assert(text@ =~= head + position_text(first@) + " and "@ + position_text(second@));
        text
    }
}

/// Whether a consistent grid, or a consistent region, is also complete.
#[derive(Debug, Clone, Copy, PartialEq, Eq, Structural, PartialOrd, Ord, Hash)]
pub enum VerificationResult {
    /// Some number is missing.
    Incomplete,
    /// Every number is there.
    Complete,
}

impl vstd::std_specs::ops::BitAndSpecImpl for VerificationResult {
    open spec fn obeys_bitand_spec() -> bool {
        true
    }

    open spec fn bitand_req(self, rhs: Self) -> bool {
        true
    }

    open spec fn bitand_spec(self, rhs: Self) -> Self {
        completeness(self == VerificationResult::Complete && rhs == VerificationResult::Complete)
    }
}

impl std::ops::BitAnd for VerificationResult {
    type Output = Self;

    /// `Complete` where both are.
    fn bitand(self, rhs: Self) -> (r: Self) {
        match (self, rhs) {
            (VerificationResult::Complete, VerificationResult::Complete) => {
                VerificationResult::Complete
            },
            _ => VerificationResult::Incomplete,
        }
    }
}

impl vstd::std_specs::ops::BitOrSpecImpl for VerificationResult {
    open spec fn obeys_bitor_spec() -> bool {
        true
    }

    open spec fn bitor_req(self, rhs: Self) -> bool {
        true
    }

    open spec fn bitor_spec(self, rhs: Self) -> Self {
        completeness(self == VerificationResult::Complete || rhs == VerificationResult::Complete)
    }
}

impl std::ops::BitOr for VerificationResult {
    type Output = Self;

    /// `Complete` where one of them is.
    fn bitor(self, rhs: Self) -> (r: Self) {
        match (self, rhs) {
            (VerificationResult::Incomplete, VerificationResult::Incomplete) => {
                VerificationResult::Incomplete
            },
            _ => VerificationResult::Complete,
        }
    }
}

impl vstd::std_specs::ops::BitXorSpecImpl for VerificationResult {
    open spec fn obeys_bitxor_spec() -> bool {
        true
    }

    open spec fn bitxor_req(self, rhs: Self) -> bool {
        true
    }

    open spec fn bitxor_spec(self, rhs: Self) -> Self {
        completeness(self != rhs)
    }
}

impl std::ops::BitXor for VerificationResult {
    type Output = Self;

    /// `Complete` where exactly one of them is.
    fn bitxor(self, rhs: Self) -> (r: Self) {
        match (self, rhs) {
            (VerificationResult::Incomplete, VerificationResult::Complete)
            | (VerificationResult::Complete, VerificationResult::Incomplete) => {
                VerificationResult::Complete
            },
            _ => VerificationResult::Incomplete,
        }
    }
}

/// `Complete` where `complete` holds.
pub open spec fn completeness(complete: bool) -> VerificationResult {
    if complete {
        VerificationResult::Complete
    } else {
        VerificationResult::Incomplete
    }
}

/// The entries with strength `s`.
pub open spec fn has_strength(s: Strength) -> spec_fn(Entry) -> bool {
    |e: Entry| e.1 == s
}

/// The entries in the order in which a conflict names them: the given ones
/// first, then the guesses, then the others, each group in its old order.
pub open spec fn conflict_order(entries: Seq<Entry>) -> Seq<Entry> {
    entries.filter(has_strength(Strength::Given)) + entries.filter(
        has_strength(Strength::Guess),
    ) + entries.filter(has_strength(Strength::Solution))
}

/// The conflict among `entries`, which all hold one number: it is named
/// after the two firmest kinds of cell that clash, and cites the first two
/// entries in the order of a conflict.
pub open spec fn classify(entries: Seq<Entry>) -> Conflict {
    let given = entries.filter(has_strength(Strength::Given)).len();
    let solution = entries.filter(has_strength(Strength::Solution)).len();
    let order = conflict_order(entries);
    if given >= 2 {
        Conflict::HintInconsistency(order[0].0, order[1].0)
    } else if solution + given >= 2 {
        Conflict::WrongSolution(order[0].0, order[1].0)
    } else {
        Conflict::WrongGuess(order[0].0, order[1].0)
    }
}

/// The entries of a list of positions with strengths.
pub open spec fn entry_views<const SQUARE_SIZE: u8>(
    list: Seq<(CellPosition<SQUARE_SIZE>, Strength)>,
) -> Seq<Entry> {
    list.map_values(|e: (CellPosition<SQUARE_SIZE>, Strength)| (e.0@, e.1))
}

/// The order of a conflict keeps every entry.
pub proof fn lemma_conflict_order_len(entries: Seq<Entry>)
    ensures
        conflict_order(entries).len() == entries.len(),
    decreases entries.len(),
{
    reveal(Seq::filter);
    if entries.len() > 0 {
        lemma_conflict_order_len(entries.drop_last());
    }
}

/// The positions whose cell holds the number `v` in `grid`.
pub open spec fn holds(grid: GridModel, v: int) -> spec_fn((int, int)) -> bool {
    |p: (int, int)| state_at(grid, p).value() == Some(v)
}

/// The positions of `region` whose cell holds the number `v`, in the order of
/// the region.
pub open spec fn holders(grid: GridModel, region: Seq<(int, int)>, v: int) -> Seq<(int, int)> {
    region.filter(holds(grid, v))
}

/// The positions `positions`, each with the strength of its cell.
pub open spec fn entries(grid: GridModel, positions: Seq<(int, int)>) -> Seq<Entry> {
    positions.map_values(|p: (int, int)| (p, strength(state_at(grid, p))))
}

/// The positions other than `p`.
pub open spec fn is_not(p: (int, int)) -> spec_fn((int, int)) -> bool {
    |q: (int, int)| q != p
}

/// `region` without the position `skip`, if there is one to skip.
pub open spec fn without(region: Seq<(int, int)>, skip: Option<(int, int)>) -> Seq<(int, int)> {
    match skip {
        Some(p) => region.filter(is_not(p)),
        None => region,
    }
}

/// The smallest number from `from` to `side` that two cells of `region` hold.
pub open spec fn first_conflict(
    grid: GridModel,
    region: Seq<(int, int)>,
    from: int,
    side: int,
) -> Option<int>
    decreases side - from + 1,
{
    if from > side {
        None
    } else if holders(grid, region, from).len() >= 2 {
        Some(from)
    } else {
        first_conflict(grid, region, from + 1, side)
    }
}

/// Every number from `1` to `side` is held by exactly one cell of `region`.
pub open spec fn region_complete(grid: GridModel, region: Seq<(int, int)>, side: int) -> bool {
    forall|v: int| 1 <= v <= side ==> (#[trigger] holders(grid, region, v)).len() == 1
}

/// The regions that the sequences of `list` still have to cover.
pub open spec fn regions_of<const SQUARE_SIZE: u8, I: SudokuIter<SQUARE_SIZE>>(list: Seq<I>) -> Seq<
    Seq<(int, int)>,
> {
    list.map_values(|it: I| it.remaining())
}

/// What the verification of one region finds: the conflict over the smallest
/// number that two of its cells hold, or else whether the region is complete.
pub open spec fn verify_region(grid: GridModel, region: Seq<(int, int)>, side: int) -> Result<
    VerificationResult,
    Conflict,
> {
    match first_conflict(grid, region, 1, side) {
        Some(v) => Err(classify(entries(grid, holders(grid, region, v)))),
        None => Ok(completeness(region_complete(grid, region, side))),
    }
}

/// The numbers that no cell of `region` holds, entry `v - 1` for the number
/// `v`; or the conflict over the smallest number that two of its cells hold.
pub open spec fn free_values(grid: GridModel, region: Seq<(int, int)>, side: int) -> Result<
    Seq<bool>,
    Conflict,
> {
    match first_conflict(grid, region, 1, side) {
        Some(v) => Err(classify(entries(grid, holders(grid, region, v)))),
        None => Ok(Seq::new(side as nat, |i: int| holders(grid, region, i + 1).len() == 0)),
    }
}

/// `Complete` where both are.
pub open spec fn both(a: VerificationResult, b: VerificationResult) -> VerificationResult {
    completeness(a == VerificationResult::Complete && b == VerificationResult::Complete)
}

/// What the verification of `regions`, one after the other, finds: the
/// conflict of the first region that has one, or else whether all are complete.
pub open spec fn verify_regions(
    grid: GridModel,
    regions: Seq<Seq<(int, int)>>,
    side: int,
) -> Result<
    VerificationResult,
    Conflict,
>
    decreases regions.len(),
{
    if regions.len() == 0 {
        Ok(VerificationResult::Complete)
    } else {
        match verify_regions(grid, regions.drop_last(), side) {
            Err(e) => Err(e),
            Ok(a) => match verify_region(grid, regions.last(), side) {
                Err(e) => Err(e),
                Ok(b) => Ok(both(a, b)),
            },
        }
    }
}

/// The rows of a grid of side `side`, from the top.
pub open spec fn all_rows(side: int) -> Seq<Seq<(int, int)>> {
    Seq::new(side as nat, |i: int| row_positions(side, i))
}

/// The columns of a grid of side `side`, from the left.
pub open spec fn all_columns(side: int) -> Seq<Seq<(int, int)>> {
    Seq::new(side as nat, |i: int| column_positions(side, i))
}

/// The blocks of a grid of block size `block`, line by line.
pub open spec fn all_squares(block: int) -> Seq<Seq<(int, int)>> {
    Seq::new(
        (block * block) as nat,
        |i: int| square_positions(block, (i % block) * block, (i / block) * block),
    )
}

/// What the verification of a whole grid finds: rows first, then columns,
/// then blocks; the first conflict met, or else whether all are complete.
pub open spec fn verify_grid(grid: GridModel, block: int) -> Result<VerificationResult, Conflict> {
    let side = block * block;
    match verify_regions(grid, all_rows(side), side) {
        Err(e) => Err(e),
        Ok(a) => match verify_regions(grid, all_columns(side), side) {
            Err(e) => Err(e),
            Ok(b) => match verify_regions(grid, all_squares(block), side) {
                Err(e) => Err(e),
                Ok(c) => Ok(both(both(a, b), c)),
            },
        },
    }
}

/// The numbers that the cell at `p` can take: those that no other cell of
/// its row, of its column and of its block holds. Where two other cells of
/// one of these regions hold the same number, that conflict instead; the row
/// is looked at first, then the column, then the block.
pub open spec fn candidates(
    grid: GridModel,
    p: (int, int),
    block: int,
) -> Result<Seq<bool>, Conflict> {
    let side = block * block;
    match free_values(grid, without(row_positions(side, p.1), Some(p)), side) {
        Err(e) => Err(e),
        Ok(a) => match free_values(grid, without(column_positions(side, p.0), Some(p)), side) {
            Err(e) => Err(e),
            Ok(b) => match free_values(
                grid,
                without(square_positions(block, p.0, p.1), Some(p)),
                side,
            ) {
                Err(e) => Err(e),
                Ok(c) => Ok(intersect(intersect(a, b), c)),
            },
        },
    }
}

/// Once the first `upto` regions hold a conflict, so do all of them, and it
/// is the same one.
pub proof fn lemma_verify_regions_stops(
    grid: GridModel,
    regions: Seq<Seq<(int, int)>>,
    upto: int,
    side: int,
)
    requires
        0 <= upto <= regions.len(),
        verify_regions(grid, regions.take(upto), side) is Err,
    ensures
        verify_regions(grid, regions, side) == verify_regions(grid, regions.take(upto), side),
    decreases regions.len() - upto,
{
    if upto < regions.len() {
        assert(regions.take(upto + 1).drop_last() =~= regions.take(upto));
        lemma_verify_regions_stops(grid, regions, upto + 1, side);
    } else {
        assert(regions.take(upto) =~= regions);
    }
}

/// Every row, every column and every block of `grid` holds each number from
/// `1` to the side of the grid exactly once.
pub open spec fn solved(grid: GridModel, block: int) -> bool {
    let side = block * block;
    forall|i: int|
        #![trigger all_rows(side)[i]]
        #![trigger all_columns(side)[i]]
        #![trigger all_squares(block)[i]]
        0 <= i < side ==> region_complete(grid, all_rows(side)[i], side) && region_complete(
            grid,
            all_columns(side)[i],
            side,
        ) && region_complete(grid, all_squares(block)[i], side)
}

/// Regions that verify as complete are complete, each of them.
pub proof fn lemma_complete_regions(grid: GridModel, regions: Seq<Seq<(int, int)>>, side: int)
    requires
        verify_regions(grid, regions, side) == Ok::<VerificationResult, Conflict>(
            VerificationResult::Complete,
        ),
    ensures
        forall|i: int|
            0 <= i < regions.len() ==> region_complete(grid, #[trigger] regions[i], side),
    decreases regions.len(),
{
    if regions.len() > 0 {
        lemma_complete_regions(grid, regions.drop_last(), side);
        assert forall|i: int| 0 <= i < regions.len() implies region_complete(
            grid,
            #[trigger] regions[i],
            side,
        ) by {
            if i < regions.len() - 1 {
                assert(regions.drop_last()[i] == regions[i]);
            }
        }
    }
}

/// A grid that verifies as complete is solved: soundness of the verification.
pub proof fn lemma_complete_grid(grid: GridModel, block: int)
    requires
        verify_grid(grid, block) == Ok::<VerificationResult, Conflict>(
            VerificationResult::Complete,
        ),
    ensures
        solved(grid, block),
{
    let side = block * block;
    lemma_complete_regions(grid, all_rows(side), side);
    lemma_complete_regions(grid, all_columns(side), side);
    lemma_complete_regions(grid, all_squares(block), side);
}

/// The verification reads the states of the cells and nothing else: on the
/// same states it finds the same, however often it is asked.
pub proof fn lemma_verification_repeatable<const SQUARE_SIZE: u8>(
    first: Sudoku<SQUARE_SIZE>,
    second: Sudoku<SQUARE_SIZE>,
)
    requires
        first@ == second@,
    ensures
        verify_grid(first@, SQUARE_SIZE as int) == verify_grid(second@, SQUARE_SIZE as int),
{
}

/// What a verification returned, over plain positions.
pub open spec fn outcome_view<const SQUARE_SIZE: u8>(
    r: Result<VerificationResult, VerificationError<SQUARE_SIZE>>,
) -> Result<VerificationResult, Conflict> {
    match r {
        Ok(result) => Ok(result),
        Err(e) => Err(e@),
    }
}

/// What a search for possible numbers returned, over plain values.
pub open spec fn possibility_view<const SQUARE_SIZE: u8>(
    r: Result<CellPossibilities<SQUARE_SIZE>, VerificationError<SQUARE_SIZE>>,
) -> Result<Seq<bool>, Conflict> {
    match r {
        Ok(possibility) => Ok(possibility@),
        Err(e) => Err(e@),
    }
}

/// The position held by `position`, if any.
pub open spec fn position_view<const SQUARE_SIZE: u8>(
    position: Option<CellPosition<SQUARE_SIZE>>,
) -> Option<(int, int)> {
    match position {
        Some(p) => Some(p@),
        None => None,
    }
}

/// Bucket `v` of `array` holds the cells of `region` that hold `v`.
pub open spec fn sorted<const SQUARE_SIZE: u8>(
    array: Seq<Vec<(CellPosition<SQUARE_SIZE>, Strength)>>,
    grid: GridModel,
    region: Seq<(int, int)>,
    v: int,
) -> bool {
    entry_views(array[v - 1]@) == entries(grid, holders(grid, region, v))
}

fn strength_of<const SQUARE_SIZE: u8>(state: &CellState<SQUARE_SIZE>) -> (r: Strength)
    ensures
        r == strength(state@),
{
    match state {
        CellState::Given(_) => Strength::Given,
        CellState::Guess(_) => Strength::Guess,
        CellState::SolvedBackTrace(_) | CellState::SolvedDeduction(_) | CellState::Empty(_) => {
            Strength::Solution
        },
    }
}

impl<const SQUARE_SIZE: u8> Sudoku<SQUARE_SIZE> {
    /// The conflict among the cells of `vec`, which all hold one number.
    pub fn report_verification_error_conflict(
        vec: &Vec<(CellPosition<SQUARE_SIZE>, Strength)>,
    ) -> (r:
        VerificationError<SQUARE_SIZE>)
        requires
            vec@.len() >= 2,
        ensures
            r@ == classify(entry_views(vec@)),
    {
        let mut count_given: usize = 0;
        let mut count_guess: usize = 0;
        let mut count_solution: usize = 0;
        let mut vec_pos: Vec<CellPosition<SQUARE_SIZE>> = Vec::new();
        let ghost all = entry_views(vec@);
        let ghost mut order: Seq<Entry> = Seq::empty();
        let mut index: usize = 0;
        proof {
            reveal(Seq::filter);
            assert(all.take(0) =~= Seq::<Entry>::empty());
        }
        while index < vec.len()
            invariant
                index <= vec@.len(),
                all == entry_views(vec@),
                count_given == all.take(index as int).filter(has_strength(Strength::Given)).len(),
                count_guess == all.take(index as int).filter(has_strength(Strength::Guess)).len(),
                count_solution == all.take(index as int).filter(
                    has_strength(Strength::Solution),
                ).len(),
                count_given + count_guess + count_solution == index,
                order == conflict_order(all.take(index as int)),
                vec_pos@.len() == index,
                forall|i: int| 0 <= i < index ==> (#[trigger] vec_pos@[i])@ == order[i].0,
            decreases vec@.len() - index,
        {
            let (pos, cell) = vec[index];
            let ghost seen = all.take(index as int);
            let ghost entry: Entry = (pos@, cell);
            let ghost before = vec_pos@;
            proof {
                assert(all.take(index + 1) =~= seen.push(entry));
                seen.lemma_filter_push(entry, has_strength(Strength::Given));
                seen.lemma_filter_push(entry, has_strength(Strength::Guess));
                seen.lemma_filter_push(entry, has_strength(Strength::Solution));
                lemma_conflict_order_len(seen);
            }
            let ghost given = seen.filter(has_strength(Strength::Given));
            let ghost guess = seen.filter(has_strength(Strength::Guess));
            let ghost solution = seen.filter(has_strength(Strength::Solution));
            match cell {
                Strength::Given => {
                    vec_pos.insert(count_given, pos);
                    count_given = count_given + 1;
                    proof {
                        order = given.push(entry) + guess + solution;
                    }
                },
                Strength::Guess => {
                    vec_pos.insert(count_given + count_guess, pos);
                    count_guess = count_guess + 1;
                    proof {
                        order = given + guess.push(entry) + solution;
                    }
                },
                Strength::Solution => {
                    vec_pos.push(pos);
                    count_solution = count_solution + 1;
                    proof {
                        order = given + guess + solution.push(entry);
                    }
                },
            }
            proof {
                assert forall|i: int| 0 <= i < index + 1 implies (#[trigger] vec_pos@[i])@
                    == order[i].0 by {
                    let at: int = if cell == Strength::Given {
                        given.len() as int
                    } else if cell == Strength::Guess {
                        (given.len() + guess.len()) as int
                    } else {
                        index as int
                    };
                    if i < at {
                        assert(vec_pos@[i] == before[i]);
                        assert(order[i] == conflict_order(seen)[i]);
                    } else if i > at {
                        assert(vec_pos@[i] == before[i - 1]);
                        assert(order[i] == conflict_order(seen)[i - 1]);
                    }
                }
            }
            index = index + 1;
        }
        proof {
            assert(all.take(index as int) =~= all);
        }
        if count_given >= 2 {
            VerificationError::HintInconsistency(vec_pos[0], vec_pos[1])
        } else if count_solution + count_given >= 2 {
            VerificationError::WrongSolution(vec_pos[0], vec_pos[1])
        } else {
            VerificationError::WrongGuess(vec_pos[0], vec_pos[1])
        }
    }

    /// Sorts the cells at the positions of `it` by the number they hold:
    /// bucket `v - 1` gets the cells that hold `v`, in the order of `it`. The
    /// position `skip` is passed over.
    pub fn sorted_cell_by_number<I: SudokuIter<SQUARE_SIZE>>(
        &self,
        it: &mut I,
        skip: Option<CellPosition<SQUARE_SIZE>>,
    ) -> (r: Vec<Vec<(CellPosition<SQUARE_SIZE>, Strength)>>)
        ensures
            r@.len() == side(SQUARE_SIZE),
            forall|v: int|
                1 <= v <= side(SQUARE_SIZE) ==> #[trigger] sorted(
                    r@,
                    self@,
                    without(old(it).remaining(), position_view(skip)),
                    v,
                ),
            final(it).remaining().len() == 0,
    {
        let n = game_side(SQUARE_SIZE);
        let ghost whole = it.remaining();
        let ghost skipped = position_view(skip);
        let mut array: Vec<Vec<(CellPosition<SQUARE_SIZE>, Strength)>> = Vec::new();
        while array.len() < n
            invariant
                n == side(SQUARE_SIZE),
                array@.len() <= n,
                forall|i: int| 0 <= i < array@.len() ==> (#[trigger] array@[i])@.len() == 0,
            decreases n - array@.len(),
        {
            array.push(Vec::new());
        }
        let ghost mut k: int = 0;
        proof {
            reveal(Seq::filter);
            assert(whole.take(0) =~= Seq::<(int, int)>::empty());
            assert(whole.skip(0) =~= whole);
            assert forall|v: int| 1 <= v <= n implies #[trigger] sorted(
                array@,
                self@,
                without(whole.take(0), skipped),
                v,
            ) by {
                assert(without(whole.take(0), skipped) =~= Seq::<(int, int)>::empty());
                assert(entry_views(array@[v - 1]@) =~= entries(
                    self@,
                    holders(self@, Seq::<(int, int)>::empty(), v),
                ));
            }
        }
        let mut next = it.next();
        while next.is_some()
            invariant
                n == side(SQUARE_SIZE),
                array@.len() == n,
                skipped == position_view(skip),
                0 <= k <= whole.len(),
                next matches Some(el) ==> k < whole.len() && el@ == whole[k] && it.remaining()
                    == whole.skip(k + 1),
                next is None ==> k == whole.len() && it.remaining().len() == 0,
                forall|v: int|
                    1 <= v <= n ==> #[trigger] sorted(
                        array@,
                        self@,
                        without(whole.take(k), skipped),
                        v,
                    ),
            decreases whole.len() - k,
        {
            let el = next.unwrap();
            let ghost done = without(whole.take(k), skipped);
            let ghost before = array@;
            let same = match skip {
                Some(p) => p == el,
                None => false,
            };
            proof {
                assert(whole.take(k + 1) =~= whole.take(k).push(el@));
                if let Some(p) = skipped {
                    whole.take(k).lemma_filter_push(el@, is_not(p));
                }
            }
            if !same {
                let state = self.get_cell(el).state();
                match state.cell_number() {
                    Some(number) => {
                        let place = number.number() - 1;
                        let entry = (el, strength_of(state));
                        array[place].push(entry);
                        proof {
                            assert forall|v: int| 1 <= v <= n implies #[trigger] sorted(
                                array@,
                                self@,
                                done.push(el@),
                                v,
                            ) by {
                                done.lemma_filter_push(el@, holds(self@, v));
                                assert(sorted(before, self@, done, v));
                                if v == number@ {
                                    assert(entries(self@, holders(self@, done, v).push(el@))
                                        =~= entries(self@, holders(self@, done, v)).push(
                                        (el@, entry.1),
                                    ));
                                    assert(entry_views(before[v - 1]@.push(entry)) =~= entry_views(
                                        before[v - 1]@,
                                    ).push((el@, entry.1)));
                                } else {
                                    assert(array@[v - 1] == before[v - 1]);
                                }
                            }
                        }
                    },
                    None => {
                        proof {
                            assert forall|v: int| 1 <= v <= n implies #[trigger] sorted(
                                array@,
                                self@,
                                done.push(el@),
                                v,
                            ) by {
                                done.lemma_filter_push(el@, holds(self@, v));
                                assert(sorted(before, self@, done, v));
                            }
                        }
                    },
                }
            }
            next = it.next();
            proof {
                if k + 1 < whole.len() {
                    assert(whole.skip(k + 1)[0] == whole[k + 1]);
                    assert(whole.skip(k + 1).drop_first() =~= whole.skip(k + 2));
                }
                k = k + 1;
            }
        }
        proof {
            assert(whole.take(k) =~= whole);
        }
        array
    }

    /// Verifies the region that `it` covers: finds the conflict over the
    /// smallest number that two of its cells hold, or else says whether every
    /// number is there.
    pub fn verify_iterator<I: SudokuIter<SQUARE_SIZE>>(&self, it: &mut I) -> (r: Result<
        VerificationResult,
        VerificationError<SQUARE_SIZE>,
    >)
        ensures
            outcome_view(r) == verify_region(self@, old(it).remaining(), side(SQUARE_SIZE)),
            final(it).remaining().len() == 0,
    {
        let ghost region = it.remaining();
        let array = self.sorted_cell_by_number(it, None);
        let mut complete = VerificationResult::Complete;
        let mut index: usize = 0;
        proof {
            assert(without(region, position_view(None::<CellPosition<SQUARE_SIZE>>)) == region);
        }
        while index < array.len()
            invariant
                it.remaining().len() == 0,
                region == old(it).remaining(),
                array@.len() == side(SQUARE_SIZE),
                index <= array@.len(),
                forall|v: int|
                    1 <= v <= side(SQUARE_SIZE) ==> #[trigger] sorted(array@, self@, region, v),
                first_conflict(self@, region, 1, side(SQUARE_SIZE)) == first_conflict(
                    self@,
                    region,
                    index + 1,
                    side(SQUARE_SIZE),
                ),
                complete == completeness(region_complete(self@, region, index as int)),
            decreases array@.len() - index,
        {
            let vec = &array[index];
            proof {
                assert(sorted(array@, self@, region, index + 1));
                assert(entry_views(vec@).len() == vec@.len());
                assert(entries(self@, holders(self@, region, index + 1)).len() == holders(
                    self@,
                    region,
                    index + 1,
                ).len());
            }
            if vec.len() >= 2 {
                return Err(Self::report_verification_error_conflict(vec));
            } else if vec.is_empty() {
                complete = VerificationResult::Incomplete;
            }
            proof {
                if region_complete(self@, region, index as int) && vec@.len() == 1 {
                    assert forall|v: int| 1 <= v <= index + 1 implies (#[trigger] holders(
                        self@,
                        region,
                        v,
                    )).len() == 1 by {
                        if v <= index {
                            assert(region_complete(self@, region, index as int));
                        }
                    }
                }
            }
            index = index + 1;
        }
        Ok(complete)
    }

    /// The numbers that no cell at the positions of `it` holds; the position
    /// `skip` is passed over. Where two of the cells hold the same number, the
    /// conflict over the smallest such number instead.
    pub fn possibility_iter<I: SudokuIter<SQUARE_SIZE>>(
        &self,
        it: &mut I,
        skip: Option<CellPosition<SQUARE_SIZE>>,
    ) -> (r: Result<CellPossibilities<SQUARE_SIZE>, VerificationError<SQUARE_SIZE>>)
        ensures
            possibility_view(r) == free_values(
                self@,
                without(old(it).remaining(), position_view(skip)),
                side(SQUARE_SIZE),
            ),
            final(it).remaining().len() == 0,
    {
        let ghost region = without(it.remaining(), position_view(skip));
        let array = self.sorted_cell_by_number(it, skip);
        let mut possibilities = CellPossibilities::new_no_possibility();
        let mut index: usize = 0;
        while index < array.len()
            invariant
                it.remaining().len() == 0,
                region == without(old(it).remaining(), position_view(skip)),
                array@.len() == side(SQUARE_SIZE),
                index <= array@.len(),
                forall|v: int|
                    1 <= v <= side(SQUARE_SIZE) ==> #[trigger] sorted(array@, self@, region, v),
                first_conflict(self@, region, 1, side(SQUARE_SIZE)) == first_conflict(
                    self@,
                    region,
                    index + 1,
                    side(SQUARE_SIZE),
                ),
                possibilities@.len() == side(SQUARE_SIZE),
                forall|i: int|
                    0 <= i < index ==> possibilities@[i] == (holders(self@, region, i + 1).len()
                        == 0),
                forall|i: int| index <= i < side(SQUARE_SIZE) ==> !possibilities@[i],
            decreases array@.len() - index,
        {
            let vec = &array[index];
            proof {
                assert(sorted(array@, self@, region, index + 1));
                assert(entry_views(vec@).len() == vec@.len());
                assert(entries(self@, holders(self@, region, index + 1)).len() == holders(
                    self@,
                    region,
                    index + 1,
                ).len());
            }
            if vec.len() >= 2 {
                return Err(Self::report_verification_error_conflict(vec));
            } else if vec.is_empty() {
                let number = CellNumber::new(index + 1);
                possibilities.set(number.unwrap(), true);
            }
            index = index + 1;
        }
        assert(possibilities@ =~= Seq::new(
            side(SQUARE_SIZE) as nat,
            |i: int| holders(self@, region, i + 1).len() == 0,
        ));
        Ok(possibilities)
    }

    /// All rows, from the top.
    pub fn rows() -> (r: Vec<Row<SQUARE_SIZE>>)
        ensures
            regions_of(r@) == all_rows(side(SQUARE_SIZE)),
    {
        let n = game_side(SQUARE_SIZE);
        let mut list: Vec<Row<SQUARE_SIZE>> = Vec::new();
        while list.len() < n
            invariant
                n == side(SQUARE_SIZE),
                list@.len() <= n,
                forall|i: int|
                    0 <= i < list@.len() ==> (#[trigger] list@[i]).remaining() == row_positions(
                        n as int,
                        i,
                    ),
            decreases n - list@.len(),
        {
            let position = CellPosition::new_from_number(0, list.len());
            list.push(Row::new(position.unwrap()));
        }
        assert(regions_of(list@) =~= all_rows(side(SQUARE_SIZE)));
        list
    }

    /// All columns, from the left.
    pub fn columns() -> (r: Vec<Column<SQUARE_SIZE>>)
        ensures
            regions_of(r@) == all_columns(side(SQUARE_SIZE)),
    {
        let n = game_side(SQUARE_SIZE);
        let mut list: Vec<Column<SQUARE_SIZE>> = Vec::new();
        while list.len() < n
            invariant
                n == side(SQUARE_SIZE),
                list@.len() <= n,
                forall|i: int|
                    0 <= i < list@.len() ==> (#[trigger] list@[i]).remaining() == column_positions(
                        n as int,
                        i,
                    ),
            decreases n - list@.len(),
        {
            let position = CellPosition::new_from_number(list.len(), 0);
            list.push(Column::new(position.unwrap()));
        }
        assert(regions_of(list@) =~= all_columns(side(SQUARE_SIZE)));
        list
    }

    /// All blocks, line by line.
    pub fn squares() -> (r: Vec<Square<SQUARE_SIZE>>)
        ensures
            regions_of(r@) == all_squares(SQUARE_SIZE as int),
    {
        let n = game_side(SQUARE_SIZE);
        let block = SQUARE_SIZE as usize;
        let mut list: Vec<Square<SQUARE_SIZE>> = Vec::new();
        while list.len() < n
            invariant
                n == side(SQUARE_SIZE),
                block == SQUARE_SIZE,
                list@.len() <= n,
                forall|i: int|
                    0 <= i < list@.len() ==> (#[trigger] list@[i]).remaining() == square_positions(
                        block as int,
                        (i % block as int) * block,
                        (i / block as int) * block,
                    ),
            decreases n - list@.len(),
        {
            let i = list.len();
            proof {
                let b = block as int;
                let r = i as int % b;
                lemma_side_bound(SQUARE_SIZE);
                lemma_block(b, i as int);
                assert(0 <= r * b && r * b + b <= b * b) by (nonlinear_arith)
                    requires
                        0 <= r < b,
                ;
            }
            let position = CellPosition::new_from_number((i % block) * block, (i / block) * block);
            list.push(Square::new(position.unwrap()));
        }
        assert(regions_of(list@) =~= all_squares(SQUARE_SIZE as int));
        list
    }

    /// The row, the column and the block that hold `pos`.
    pub fn row_column_square(pos: CellPosition<SQUARE_SIZE>) -> (r: (
        Row<SQUARE_SIZE>,
        Column<SQUARE_SIZE>,
        Square<SQUARE_SIZE>,
    ))
        ensures
            r.0.remaining() == row_positions(side(SQUARE_SIZE), pos@.1),
            r.1.remaining() == column_positions(side(SQUARE_SIZE), pos@.0),
            r.2.remaining() == square_positions(SQUARE_SIZE as int, pos@.0, pos@.1),
    {
        (Row::new(pos), Column::new(pos), Square::new(pos))
    }

    /// What the cell at `position` could be given as a hint: the numbers that
    /// it can take, in ascending order, where it is empty; nothing where it is
    /// not.
    pub fn hint_choices(&self, position: CellPosition<SQUARE_SIZE>) -> (r: Result<
        Vec<CellNumber<SQUARE_SIZE>>,
        VerificationError<SQUARE_SIZE>,
    >)
        ensures
            !(state_at(self@, position@) is Empty) ==> (r matches Ok(list) && list@.len() == 0),
            state_at(self@, position@) is Empty ==> match candidates(
                self@,
                position@,
                SQUARE_SIZE as int,
            ) {
                Ok(possibility) => (r matches Ok(list) && lists(list@, possibility)),
                Err(conflict) => (r matches Err(e) && e@ == conflict),
            },
    {
        match self.get_cell(position).state() {
            CellState::Empty(_) => match self.possibility_cell(position) {
                Ok(possibility) => Ok(possibility.into_vec()),
                Err(e) => Err(e),
            },
            _ => Ok(Vec::new()),
        }
    }

    /// Verifies the regions of `list` one after the other: returns the
    /// conflict of the first region that has one, or else says whether all of
    /// them are complete.
    pub fn verify_list_iter<I: SudokuIter<SQUARE_SIZE>>(&self, list: Vec<I>) -> (r: Result<
        VerificationResult,
        VerificationError<SQUARE_SIZE>,
    >)
        ensures
            outcome_view(r) == verify_regions(self@, regions_of(list@), side(SQUARE_SIZE)),
    {
        let ghost regions = regions_of(list@);
        let mut items = list;
        let mut verification_result = VerificationResult::Complete;
        let mut index: usize = 0;
        proof {
            assert(regions.take(0) =~= Seq::<Seq<(int, int)>>::empty());
        }
        while index < items.len()
            invariant
                regions == regions_of(list@),
                index <= items@.len(),
                items@.len() == regions.len(),
                forall|j: int| index <= j < items@.len() ==> (#[trigger] items@[j]).remaining()
                    == regions[j],
                verify_regions(self@, regions.take(index as int), side(SQUARE_SIZE)) == Ok::<
                    VerificationResult,
                    Conflict,
                >(verification_result),
            decreases items@.len() - index,
        {
            proof {
                assert(regions.take(index + 1).drop_last() =~= regions.take(index as int));
                assert(regions.take(index + 1).last() == regions[index as int]);
            }
            let res = self.verify_iterator(&mut items[index]);
            proof {
                assert(outcome_view(res) == verify_region(
                    self@,
                    regions[index as int],
                    side(SQUARE_SIZE),
                ));
            }
            match res {
                Err(e) => {
                    proof {
                        assert(verify_regions(self@, regions.take(index + 1), side(SQUARE_SIZE))
                            == Err::<VerificationResult, Conflict>(e@));
                        lemma_verify_regions_stops(
                            self@,
                            regions,
                            index + 1,
                            side(SQUARE_SIZE),
                        );
                    }
                    return Err(e);
                },
                Ok(VerificationResult::Incomplete) => {
                    verification_result = VerificationResult::Incomplete;
                },
                Ok(VerificationResult::Complete) => {},
            }
            index = index + 1;
        }
        proof {
            assert(regions.take(index as int) =~= regions);
        }
        Ok(verification_result)
    }

    /// Verifies the whole grid: its rows, then its columns, then its blocks.
    /// Returns the first conflict met, or else says whether the grid is
    /// complete.
    pub fn verify_configuration(&self) -> (r: Result<
        VerificationResult,
        VerificationError<SQUARE_SIZE>,
    >)
        ensures
            outcome_view(r) == verify_grid(self@, SQUARE_SIZE as int),
            r == Ok::<VerificationResult, VerificationError<SQUARE_SIZE>>(
                VerificationResult::Complete,
            ) ==> solved(self@, SQUARE_SIZE as int),
    {
        proof {
            if verify_grid(self@, SQUARE_SIZE as int) == Ok::<VerificationResult, Conflict>(
                VerificationResult::Complete,
            ) {
                lemma_complete_grid(self@, SQUARE_SIZE as int);
            }
        }
        let rows = match self.verify_list_iter(Self::rows()) {
            Ok(result) => result,
            Err(e) => {
                return Err(e);
            },
        };
        let columns = match self.verify_list_iter(Self::columns()) {
            Ok(result) => result,
            Err(e) => {
                return Err(e);
            },
        };
        let squares = match self.verify_list_iter(Self::squares()) {
            Ok(result) => result,
            Err(e) => {
                return Err(e);
            },
        };
        Ok(rows & columns & squares)
    }

    /// The numbers that the cell at `pos` can take: those that no other cell
    /// of its row, column and block holds. The cell at `pos` itself is not
    /// looked at, so that this also tells what a filled cell could hold
    /// instead.
    pub fn possibility_cell(&self, pos: CellPosition<SQUARE_SIZE>) -> (r: Result<
        CellPossibilities<SQUARE_SIZE>,
        VerificationError<SQUARE_SIZE>,
    >)
        ensures
            possibility_view(r) == candidates(self@, pos@, SQUARE_SIZE as int),
    {
        let (mut row, mut col, mut square) = Self::row_column_square(pos);
        let in_row = match self.possibility_iter(&mut row, Some(pos)) {
            Ok(possibility) => possibility,
            Err(e) => {
                return Err(e);
            },
        };
        let in_column = match self.possibility_iter(&mut col, Some(pos)) {
            Ok(possibility) => possibility,
            Err(e) => {
                return Err(e);
            },
        };
        let in_square = match self.possibility_iter(&mut square, Some(pos)) {
            Ok(possibility) => possibility,
            Err(e) => {
                return Err(e);
            },
        };
        Ok(in_row & in_column & in_square)
    }
}

} // verus!
