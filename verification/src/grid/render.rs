//! Grids as text.

use vstd::prelude::*;
use vstd::string::StringExecFns;
use crate::cell::{game_side, lemma_side_bound, side, CellModel, CellState};
use crate::grid::{cell_by_cell, CellPosition, Sudoku};
use crate::text::{digits, number_text};

verus! {

/// `piece`, `n` times over.
pub open spec fn repeated(piece: Seq<char>, n: int) -> Seq<char>
    decreases n,
{
    if n <= 0 {
        Seq::empty()
    } else {
        repeated(piece, n - 1) + piece
    }
}

/// How many characters a number of a grid of side `side` takes at most.
pub open spec fn number_width(side: int) -> int {
    digits(side as nat, 10, false).len() as int
}

/// The characters of one line of the frame.
pub struct Frame {
    /// The left end.
    pub left: char,
    /// The line itself.
    pub line: char,
    /// The right end.
    pub right: char,
    /// The crossing with a line between two cells of one block.
    pub single: char,
    /// The crossing with a line between two blocks.
    pub double: char,
}

/// The characters of the line of the frame above the cells with the first
/// coordinate `number`; for `number == side` those of the line at the
/// bottom. A line between two blocks is a double one.
pub open spec fn frame(number: int, side: int, block: int) -> Frame {
    if number == 0 {
        Frame { left: '╔', line: '═', right: '╗', single: '╤', double: '╦' }
    } else if number == side {
        Frame { left: '╚', line: '═', right: '╝', single: '╧', double: '╩' }
    } else if number % block == 0 {
        Frame { left: '╠', line: '═', right: '╣', single: '╪', double: '╬' }
    } else {
        Frame { left: '╟', line: '─', right: '╢', single: '┼', double: '╫' }
    }
}

/// The beginning of a line of the frame, up to the crossing behind cell
/// `index`.
pub open spec fn separator_upto(f: Frame, index: int, side: int, block: int) -> Seq<char>
    decreases index,
{
    if index <= 0 {
        seq![f.left]
    } else {
        separator_upto(f, index - 1, side, block) + repeated(seq![f.line], number_width(side) + 2)
            + seq![
            if index % block == 0 {
                f.double
            } else {
                f.single
            },
        ]
    }
}

/// A whole line of the frame, with the end of the line.
pub open spec fn separator(number: int, side: int, block: int) -> Seq<char> {
    let f = frame(number, side, block);
    separator_upto(f, side - 1, side, block) + repeated(seq![f.line], number_width(side) + 2)
        + seq![f.right, '\n']
}

/// A line of the plain frame, with the end of the line.
pub open spec fn basic_separator(side: int) -> Seq<char> {
    repeated(seq!['+'] + repeated(seq!['-'], number_width(side) + 2), side) + seq!['+', '\n']
}

/// The text of one cell: its number as `painted` shows it, set to the right
/// with one blank on either side; blanks where it holds none.
pub open spec fn cell_text(state: CellModel, painted: Seq<char>, side: int) -> Seq<char> {
    match state.value() {
        Some(v) => repeated(seq![' '], 1 + number_width(side) - digits(v as nat, 10, false).len())
            + painted + seq![' '],
        None => repeated(seq![' '], number_width(side) + 2),
    }
}

/// The bar before the cell with the second coordinate `y`.
pub open spec fn bar(y: int, block: int, basic: bool) -> char {
    if basic {
        '|'
    } else if y % block == 0 {
        '║'
    } else {
        '│'
    }
}

/// The beginning of the line of the cells with the first coordinate `x`: the
/// first `upto` cells, each behind its bar.
pub open spec fn line_upto(
    cells: Seq<CellModel>,
    painted: Seq<Seq<char>>,
    x: int,
    upto: int,
    side: int,
    block: int,
    basic: bool,
) -> Seq<char>
    decreases upto,
{
    if upto <= 0 {
        Seq::empty()
    } else {
        line_upto(cells, painted, x, upto - 1, side, block, basic) + seq![
            bar(upto - 1, block, basic),
        ] + cell_text(cells[x * side + upto - 1], painted[x * side + upto - 1], side)
    }
}

/// The text of the first `upto` lines of cells, each below its line of the
/// frame.
pub open spec fn grid_text_upto(
    cells: Seq<CellModel>,
    painted: Seq<Seq<char>>,
    upto: int,
    side: int,
    block: int,
    basic: bool,
) -> Seq<char>
    decreases upto,
{
    if upto <= 0 {
        Seq::empty()
    } else {
        grid_text_upto(cells, painted, upto - 1, side, block, basic) + (if basic {
            basic_separator(side)
        } else {
            separator(upto - 1, side, block)
        }) + line_upto(cells, painted, upto - 1, side, side, block, basic) + seq![
            bar(0, block, basic),
            '\n',
        ]
    }
}

/// The text of a grid: its cells, listed cell by cell, in a frame. The frame
/// is plain where `basic` holds, and else drawn with single lines within the
/// blocks and double lines between them. Each number is shown as `painted`
/// shows it.
pub open spec fn grid_text(
    cells: Seq<CellModel>,
    painted: Seq<Seq<char>>,
    block: int,
    basic: bool,
) -> Seq<char> {
    let side = block * block;
    grid_text_upto(cells, painted, side, side, block, basic) + if basic {
        basic_separator(side)
    } else {
        separator(side, side, block)
    }
}

/// The numbers of `cells` in decimal digits, one text for every cell.
pub open spec fn plain_numbers(cells: Seq<CellModel>) -> Seq<Seq<char>> {
    Seq::new(
        cells.len(),
        |k: int|
            match cells[k].value() {
                Some(v) => digits(v as nat, 10, false),
                None => Seq::empty(),
            },
    )
}

/// The mark that ends what a colour mark began.
pub open spec fn end_mark() -> Seq<char> {
    "\x1b[0m"@
}

/// The mark that begins the colour of the number of a cell in state
/// `state`: white for a given number and for the note of an empty cell,
/// green for a solved one, bright red for a guess.
pub open spec fn colour_mark(state: CellModel) -> Seq<char> {
    match state {
        CellModel::Given(_) | CellModel::Empty(_) => "\x1b[37m"@,
        CellModel::SolvedDeduction(_) | CellModel::SolvedBackTrace(_) => "\x1b[32m"@,
        CellModel::Guess(_) => "\x1b[38;5;9m"@,
    }
}

/// `text` shows the number of a cell in state `state`: in decimal digits,
/// which stand between the marks of their colour where `colours` holds and
/// the terminal shows colours. It is empty for a cell without a number.
pub open spec fn shown_as(state: CellModel, text: Seq<char>, colours: bool) -> bool {
    match state.value() {
        Some(v) => text == digits(v as nat, 10, false) || (colours && text == colour_mark(state)
            + digits(v as nat, 10, false) + end_mark()),
        None => text.len() == 0,
    }
}

/// The number `number` in white: what `console::Style::apply_to` makes of it
/// with the style `console::Style::new().white()`, written out by
/// `to_string`. The text holds the decimal digits of the number; where the
/// terminal shows colours they stand between the mark of white and the mark
/// of the end.
#[verifier::external_body]
fn white(number: usize) -> (painted: String)
    ensures
        painted@ == digits(number as nat, 10, false) || painted@ == "\x1b[37m"@ + digits(
            number as nat,
            10,
            false,
        ) + end_mark(),
{
    console::Style::new().white().apply_to(number).to_string()
}

/// The number `number` in green: what `console::Style::apply_to` makes of it
/// with the style `console::Style::new().green()`, written out by
/// `to_string`. The text holds the decimal digits of the number; where the
/// terminal shows colours they stand between the mark of green and the mark
/// of the end.
#[verifier::external_body]
fn green(number: usize) -> (painted: String)
    ensures
        painted@ == digits(number as nat, 10, false) || painted@ == "\x1b[32m"@ + digits(
            number as nat,
            10,
            false,
        ) + end_mark(),
{
    console::Style::new().green().apply_to(number).to_string()
}

/// The number `number` in bright red: what `console::Style::apply_to` makes
/// of it with the style `console::Style::new().red().bright()`, written out
/// by `to_string`. The text holds the decimal digits of the number; where
/// the terminal shows colours they stand between the mark of bright red and
/// the mark of the end.
#[verifier::external_body]
fn bright_red(number: usize) -> (painted: String)
    ensures
        painted@ == digits(number as nat, 10, false) || painted@ == "\x1b[38;5;9m"@ + digits(
            number as nat,
            10,
            false,
        ) + end_mark(),
{
    console::Style::new().red().bright().apply_to(number).to_string()
}

/// The texts of `list`.
pub open spec fn texts(list: Seq<String>) -> Seq<Seq<char>> {
    list.map_values(|text: String| text@)
}

/// A number has at least one digit, and no more digits than a larger one.
pub proof fn lemma_digits_len(n: nat, m: nat)
    requires
        n <= m,
    ensures
        1 <= digits(n, 10, false).len() <= digits(m, 10, false).len(),
    decreases m,
{
    if m >= 10 {
        if n >= 10 {
            assert(n / 10 <= m / 10) by (nonlinear_arith)
                requires
                    n <= m,
            ;
            lemma_digits_len(n / 10, m / 10);
        } else {
            lemma_digits_len(0, m / 10);
        }
    }
}

fn append_repeated(text: &mut String, piece: &str, n: usize)
    ensures
        final(text)@ == old(text)@ + repeated(piece@, n as int),
{
    let mut done: usize = 0;
    assert(text@ + repeated(piece@, 0) =~= text@);
    while done < n
        invariant
            done <= n,
            text@ == old(text)@ + repeated(piece@, done as int),
        decreases n - done,
    {
        text.append(piece);
        done = done + 1;
        assert(old(text)@ + repeated(piece@, done - 1) + piece@ =~= old(text)@ + repeated(
            piece@,
            done as int,
        ));
    }
}

/// The characters of a line of the frame, as strings.
struct FrameText {
    left: &'static str,
    line: &'static str,
    right: &'static str,
    single: &'static str,
    double: &'static str,
}

fn frame_text(number: usize, side: usize, block: usize) -> (r: FrameText)
    requires
        number <= side,
        side == block * block,
    ensures
        r.left@ == seq![frame(number as int, side as int, block as int).left],
        r.line@ == seq![frame(number as int, side as int, block as int).line],
        r.right@ == seq![frame(number as int, side as int, block as int).right],
        r.single@ == seq![frame(number as int, side as int, block as int).single],
        r.double@ == seq![frame(number as int, side as int, block as int).double],
{
    proof {
        reveal_strlit("╔");
        reveal_strlit("═");
        reveal_strlit("╗");
        reveal_strlit("╤");
        reveal_strlit("╦");
        reveal_strlit("╚");
        reveal_strlit("╝");
        reveal_strlit("╧");
        reveal_strlit("╩");
        reveal_strlit("╠");
        reveal_strlit("╣");
        reveal_strlit("╪");
        reveal_strlit("╬");
        reveal_strlit("╟");
        reveal_strlit("─");
        reveal_strlit("╢");
        reveal_strlit("┼");
        reveal_strlit("╫");
    }
    let r = if number == 0 {
        FrameText { left: "╔", line: "═", right: "╗", single: "╤", double: "╦" }
    } else if number == side {
        FrameText { left: "╚", line: "═", right: "╝", single: "╧", double: "╩" }
    } else if number % block == 0 {
        FrameText { left: "╠", line: "═", right: "╣", single: "╪", double: "╬" }
    } else {
        FrameText { left: "╟", line: "─", right: "╢", single: "┼", double: "╫" }
    };
    assert(r.left@ =~= seq![frame(number as int, side as int, block as int).left]);
    assert(r.line@ =~= seq![frame(number as int, side as int, block as int).line]);
    assert(r.right@ =~= seq![frame(number as int, side as int, block as int).right]);
    assert(r.single@ =~= seq![frame(number as int, side as int, block as int).single]);
    assert(r.double@ =~= seq![frame(number as int, side as int, block as int).double]);
    r
}

fn append_separator(text: &mut String, number: usize, side: usize, block: usize, width: usize)
    requires
        number <= side,
        side == block * block,
        width == number_width(side as int) + 2,
    ensures
        final(text)@ == old(text)@ + separator(number as int, side as int, block as int),
{
    let f = frame_text(number, side, block);
    let ghost chars = frame(number as int, side as int, block as int);
    text.append(f.left);
    let mut index: usize = 1;
    while index < side
        invariant
            1 <= index,
            side <= 1 || index <= side,
            side <= 1 ==> index == 1,
            side == block * block,
            width == number_width(side as int) + 2,
            f.line@ == seq![chars.line],
            f.single@ == seq![chars.single],
            f.double@ == seq![chars.double],
            text@ == old(text)@ + separator_upto(chars, index - 1, side as int, block as int),
        decreases side - index,
    {
        let ghost before = text@;
        append_repeated(text, f.line, width);
        assert(block > 0) by (nonlinear_arith)
            requires
                side == block * block,
                side > 1,
        ;
        if index % block == 0 {
            text.append(f.double);
        } else {
            text.append(f.single);
        }
        assert(text@ =~= old(text)@ + separator_upto(
            chars,
            index as int,
            side as int,
            block as int,
        ));
        index = index + 1;
    }
    append_repeated(text, f.line, width);
    text.append(f.right);
    text.append("\n");
    proof {
        lemma_marks();
        if side <= 1 {
            assert(separator_upto(chars, side - 1, side as int, block as int) == seq![chars.left]);
            assert(separator_upto(chars, index - 1, side as int, block as int) == seq![chars.left]);
        }
        assert(text@ =~= old(text)@ + separator(number as int, side as int, block as int));
    }
}

fn append_basic_separator(text: &mut String, side: usize, width: usize)
    requires
        width == number_width(side as int) + 2,
    ensures
        final(text)@ == old(text)@ + basic_separator(side as int),
{
    let mut index: usize = 0;
    proof {
        lemma_marks();
    }
    let ghost piece = seq!['+'] + repeated(seq!['-'], width as int);
    assert(text@ + repeated(piece, 0) =~= text@);
    while index < side
        invariant
            index <= side,
            width == number_width(side as int) + 2,
            piece == seq!['+'] + repeated(seq!['-'], width as int),
            text@ == old(text)@ + repeated(piece, index as int),
        decreases side - index,
    {
        text.append("+");
        append_repeated(text, "-", width);
        proof {
            lemma_marks();
            assert(text@ =~= old(text)@ + repeated(piece, index as int) + piece);
        }
        index = index + 1;
    }
    text.append("+\n");
    assert(text@ =~= old(text)@ + basic_separator(side as int));
}

impl<const SQUARE_SIZE: u8> Sudoku<SQUARE_SIZE> {
    /// The grid as text in a frame, where `painted` holds for every cell,
    /// in the order of [`Sudoku::iter`], the text that shows its number. The
    /// frame is plain where `basic` holds; else single lines part the cells
    /// of a block and double lines the blocks.
    pub fn render(&self, painted: &Vec<String>, basic: bool) -> (text: String)
        requires
            painted@.len() == side(SQUARE_SIZE) * side(SQUARE_SIZE),
        ensures
            text@ == grid_text(
                cell_by_cell(self@, side(SQUARE_SIZE)),
                texts(painted@),
                SQUARE_SIZE as int,
                basic,
            ),
    {
        let n = game_side(SQUARE_SIZE);
        let block = SQUARE_SIZE as usize;
        let side_text = number_text(n, 10, false);
        let digits_of_side = side_text.as_str().unicode_len();
        let ghost cells = cell_by_cell(self@, n as int);
        let ghost shown = texts(painted@);
        proof {
            lemma_side_bound(SQUARE_SIZE);
            lemma_digits_bound(n as nat);
            self.lemma_shape();
        }
        let width = digits_of_side + 2;
        let mut text = String::new();
        let mut x: usize = 0;
        assert(text@ =~= grid_text_upto(cells, shown, 0, n as int, block as int, basic));
        while x < n
            invariant
                n == side(SQUARE_SIZE),
                n <= 65025,
                block == SQUARE_SIZE,
                n == block * block,
                x <= n,
                cells == cell_by_cell(self@, n as int),
                shown == texts(painted@),
                painted@.len() == n * n,
                digits_of_side == number_width(n as int),
                digits_of_side <= 20,
                width == digits_of_side + 2,
                text@ == grid_text_upto(cells, shown, x as int, n as int, block as int, basic),
            decreases n - x,
        {
            let ghost above = text@;
            if basic {
                append_basic_separator(&mut text, n, width);
            } else {
                append_separator(&mut text, x, n, block, width);
            }
            let ghost head = text@;
            let mut y: usize = 0;
            assert(text@ =~= head + line_upto(
                cells,
                shown,
                x as int,
                0,
                n as int,
                block as int,
                basic,
            ));
            while y < n
                invariant
                    n == side(SQUARE_SIZE),
                    n <= 65025,
                    block == SQUARE_SIZE,
                    n == block * block,
                    x < n,
                    y <= n,
                    cells == cell_by_cell(self@, n as int),
                    shown == texts(painted@),
                    painted@.len() == n * n,
                    digits_of_side == number_width(n as int),
                    digits_of_side <= 20,
                    text@ == head + line_upto(
                        cells,
                        shown,
                        x as int,
                        y as int,
                        n as int,
                        block as int,
                        basic,
                    ),
                decreases n - y,
            {
                let ghost before = text@;
                let ghost k = x * n + y;
                proof {
                    lemma_marks();
                    crate::grid::lemma_scan(n as int, (y as int, x as int));
                    assert(0 <= k < n * n);
                    assert(k / (n as int) == x && k % (n as int) == y);
                    assert(block > 0) by (nonlinear_arith)
                        requires
                            n == block * block,
                            n > 0,
                    ;
                    assert(n * n <= 65025 * 65025) by (nonlinear_arith)
                        requires
                            0 <= n <= 65025,
                    ;
                    assert(0 <= x * n <= k);
                }
                if basic {
                    text.append("|");
                } else if y % block == 0 {
                    text.append("║");
                } else {
                    text.append("│");
                }
                let position = CellPosition::new_from_number(x, y);
                let cell = self.get_cell(position.unwrap());
                match cell.cell_number() {
                    Some(number) => {
                        let value = number.number();
                        let shown_number = number.to_string();
                        let length = shown_number.as_str().unicode_len();
                        proof {
                            lemma_digits_len(value as nat, n as nat);
                        }
                        append_repeated(&mut text, " ", 1 + digits_of_side - length);
                        text.append(painted[x * n + y].as_str());
                        text.append(" ");
                    },
                    None => {
                        append_repeated(&mut text, " ", digits_of_side + 2);
                    },
                }
                proof {
                    assert(cells[k] == self@[x as int][y as int]);
                    assert(shown[k] == painted@[k]@);
                    assert(text@ =~= before + seq![bar(y as int, block as int, basic)] + cell_text(
                        cells[k],
                        shown[k],
                        n as int,
                    ));
                }
                y = y + 1;
            }
            if basic {
                text.append("|\n");
            } else {
                text.append("║\n");
            }
            proof {
                lemma_marks();
                assert(block > 0) by (nonlinear_arith)
                    requires
                        n == block * block,
                        n > 0,
                ;
                assert(0int % (block as int) == 0);
                assert(text@ =~= grid_text_upto(
                    cells,
                    shown,
                    x + 1,
                    n as int,
                    block as int,
                    basic,
                ));
            }
            x = x + 1;
        }
        if basic {
            append_basic_separator(&mut text, n, width);
        } else {
            append_separator(&mut text, n, n, block, width);
        }
        text
    }

    /// The numbers of the cells, in the order of [`Sudoku::iter`], each as
    /// [`shown_as`] says; the empty text for a cell without a number.
    fn numbers(&self, colours: bool) -> (r: Vec<String>)
        ensures
            r@.len() == side(SQUARE_SIZE) * side(SQUARE_SIZE),
            forall|k: int|
                0 <= k < r@.len() ==> shown_as(
                    cell_by_cell(self@, side(SQUARE_SIZE))[k],
                    (#[trigger] r@[k])@,
                    colours,
                ),
    {
        let n = game_side(SQUARE_SIZE);
        let ghost cells = cell_by_cell(self@, n as int);
        let mut list: Vec<String> = Vec::new();
        let mut x: usize = 0;
        proof {
            lemma_side_bound(SQUARE_SIZE);
            self.lemma_shape();
        }
        while x < n
            invariant
                n == side(SQUARE_SIZE),
                n <= 65025,
                x <= n,
                cells == cell_by_cell(self@, n as int),
                list@.len() == x * n,
                forall|k: int|
                    0 <= k < list@.len() ==> shown_as(cells[k], (#[trigger] list@[k])@, colours),
            decreases n - x,
        {
            let mut y: usize = 0;
            while y < n
                invariant
                    n == side(SQUARE_SIZE),
                    n <= 65025,
                    x < n,
                    y <= n,
                    cells == cell_by_cell(self@, n as int),
                    list@.len() == x * n + y,
                    forall|k: int|
                        0 <= k < list@.len() ==> shown_as(
                            cells[k],
                            (#[trigger] list@[k])@,
                            colours,
                        ),
                decreases n - y,
            {
                let ghost k = x * n + y;
                proof {
                    crate::grid::lemma_scan(n as int, (y as int, x as int));
                    assert(k / (n as int) == x && k % (n as int) == y);
                    assert(cells[k] == self@[x as int][y as int]);
                }
                let position = CellPosition::new_from_number(x, y);
                let state = self.get_cell(position.unwrap()).state();
                let shown = match state.cell_number() {
                    Some(number) => {
                        if colours {
                            match state {
                                CellState::Given(_) | CellState::Empty(_) => white(number.number()),
                                CellState::SolvedDeduction(_)
                                | CellState::SolvedBackTrace(_) => green(number.number()),
                                CellState::Guess(_) => bright_red(number.number()),
                            }
                        } else {
                            number.to_string()
                        }
                    },
                    None => String::new(),
                };
                list.push(shown);
                y = y + 1;
            }
            proof {
                assert((x + 1) * n == x * n + n) by (nonlinear_arith);
            }
            x = x + 1;
        }
        list
    }

    /// The numbers of the cells in decimal digits, in the order of
    /// [`Sudoku::iter`]; the empty text for a cell without a number.
    pub fn plain_numbers(&self) -> (r: Vec<String>)
        ensures
            texts(r@) == plain_numbers(cell_by_cell(self@, side(SQUARE_SIZE))),
    {
        let list = self.numbers(false);
        proof {
            let cells = cell_by_cell(self@, side(SQUARE_SIZE));
            assert forall|k: int| 0 <= k < list@.len() implies texts(list@)[k] == plain_numbers(
                cells,
            )[k] by {
                assert(shown_as(cells[k], list@[k]@, false));
                if cells[k].value() is None {
                    assert(list@[k]@ =~= Seq::<char>::empty());
                }
            }
            assert(texts(list@) =~= plain_numbers(cells));
        }
        list
    }

    /// The grid as text in a frame, plain where `basic` holds, its numbers
    /// in the colours of their cells where the terminal shows colours.
    pub fn to_styled_string(&self, basic: bool) -> (text: String)
        ensures
            exists|painted: Seq<Seq<char>>|
                {
                    &&& painted.len() == side(SQUARE_SIZE) * side(SQUARE_SIZE)
                    &&& forall|k: int|
                        0 <= k < painted.len() ==> shown_as(
                            cell_by_cell(self@, side(SQUARE_SIZE))[k],
                            #[trigger] painted[k],
                            true,
                        )
                    &&& text@ == grid_text(
                        cell_by_cell(self@, side(SQUARE_SIZE)),
                        painted,
                        SQUARE_SIZE as int,
                        basic,
                    )
                },
    {
        let painted = self.numbers(true);
        let text = self.render(&painted, basic);
        proof {
            let shown = texts(painted@);
            assert(shown.len() == side(SQUARE_SIZE) * side(SQUARE_SIZE));
            assert forall|k: int| 0 <= k < shown.len() implies shown_as(
                cell_by_cell(self@, side(SQUARE_SIZE))[k],
                #[trigger] shown[k],
                true,
            ) by {
                assert(shown[k] == painted@[k]@);
            }
        }
        text
    }

    /// The grid as text in a frame of single and double lines, its numbers
    /// in decimal digits.
    pub fn to_string(&self) -> (text: String)
        ensures
            text@ == grid_text(
                cell_by_cell(self@, side(SQUARE_SIZE)),
                plain_numbers(cell_by_cell(self@, side(SQUARE_SIZE))),
                SQUARE_SIZE as int,
                false,
            ),
    {
        let painted = self.plain_numbers();
        proof {
            assert(texts(painted@).len() == side(SQUARE_SIZE) * side(SQUARE_SIZE));
        }
        self.render(&painted, false)
    }
}

/// The marks of the frame, each a string of one or two characters.
proof fn lemma_marks()
    ensures
        "|"@ == seq!['|'],
        "║"@ == seq!['║'],
        "│"@ == seq!['│'],
        " "@ == seq![' '],
        "+"@ == seq!['+'],
        "-"@ == seq!['-'],
        "\n"@ == seq!['\n'],
        "|\n"@ == seq!['|', '\n'],
        "║\n"@ == seq!['║', '\n'],
        "+\n"@ == seq!['+', '\n'],
{
    reveal_strlit("|");
    reveal_strlit("║");
    reveal_strlit("│");
    reveal_strlit(" ");
    reveal_strlit("+");
    reveal_strlit("-");
    reveal_strlit("\n");
    reveal_strlit("|\n");
    reveal_strlit("║\n");
    reveal_strlit("+\n");
    assert("|"@ =~= seq!['|']);
    assert("║"@ =~= seq!['║']);
    assert("│"@ =~= seq!['│']);
    assert(" "@ =~= seq![' ']);
    assert("+"@ =~= seq!['+']);
    assert("-"@ =~= seq!['-']);
    assert("\n"@ =~= seq!['\n']);
    assert("|\n"@ =~= seq!['|', '\n']);
    assert("║\n"@ =~= seq!['║', '\n']);
    assert("+\n"@ =~= seq!['+', '\n']);
}

/// A number of at most twenty digits: every number that fits a machine word.
pub proof fn lemma_digits_bound(n: nat)
    requires
        n <= 0xffff_ffff_ffff_ffff,
    ensures
        digits(n, 10, false).len() <= 20,
{
    reveal_with_fuel(digits, 21);
}

} // verus!
