//! Boards as text: reading a board from characters and writing one out.

use crate::board::SudokuBoard;
use crate::grid::{in_grid, is_grid, Grid};
use vstd::prelude::*;
use vstd::string::StringExecFns;

verus! {

/// Why a text could not be read as a board.
#[derive(Debug, Clone, Copy, PartialEq, Eq)]
pub enum ParseError {
    /// The text names more than 81 cells.
    TooManyCells,
}

/// `ch` names a cell: a decimal digit, or `.` for an empty cell. Every other
/// character is layout and is skipped.
pub open spec fn is_cell_char(ch: char) -> bool {
    ch == '.' || ('0' <= ch && ch <= '9')
}

/// The cell that `ch` names: empty for `.`, and the digit's value otherwise.
pub open spec fn cell_of_char(ch: char) -> Option<u32> {
    if ch == '.' {
        None
    } else {
        Some((ch as u32 - '0' as u32) as u32)
    }
}

/// The characters of `text` that name cells, in order.
pub open spec fn cell_chars(text: Seq<char>) -> Seq<char> {
    text.filter(cell_test())
}

/// `is_cell_char` as a value.
pub open spec fn cell_test() -> spec_fn(char) -> bool {
    |ch: char| is_cell_char(ch)
}

/// The grid whose cells, read row by row, are named by `cells`. Cells past
/// the end of `cells` are empty.
pub open spec fn grid_of_cells(cells: Seq<char>) -> Grid {
    Seq::new(
        9,
        |r: int|
            Seq::new(
                9,
                |c: int|
                    if r * 9 + c < cells.len() {
                        cell_of_char(cells[r * 9 + c])
                    } else {
                        None
                    },
            ),
    )
}

impl SudokuBoard {
    /// Reads a board from `text`. The characters that name cells fill the
    /// board row by row; if there are fewer than 81 of them the remaining
    /// cells stay empty, and more than 81 are an error.
    pub fn parse(text: &str) -> (result: Result<SudokuBoard, ParseError>)
        ensures
            match result {
                Ok(board) => cell_chars(text@).len() <= 81 && board@ == grid_of_cells(
                    cell_chars(text@),
                ),
                Err(e) => cell_chars(text@).len() > 81 && e == ParseError::TooManyCells,
            },
    {
        let mut board = SudokuBoard::new();
        proof {
            assert(text@.take(0) =~= Seq::<char>::empty());
            lemma_cell_chars_empty();
            assert(board@ =~~= grid_of_cells(Seq::<char>::empty()));
        }
        let mut row: usize = 0;
        let mut col: usize = 0;
        for ch in it: text.chars()
            invariant
                it.seq() == text@,
                row <= 9,
                col < 9,
                row == 9 ==> col == 0,
                cell_chars(text@.take(it.index())).len() == row * 9 + col,
                board@ == grid_of_cells(cell_chars(text@.take(it.index()))),
        {
            let ghost before = text@.take(it.index());
            let ghost after = text@.take(it.index() + 1);
            assert(after == before.push(ch)) by {
                assert(after =~= before.push(ch));
            }
            proof {
                before.lemma_filter_push(ch, cell_test());
            }
            if ch == '.' || ('0' <= ch && ch <= '9') {
                if row == 9 {
                    proof {
                        text@.lemma_filter_take_len(cell_test(), it.index() + 1);
                    }
                    return Err(ParseError::TooManyCells);
                }
                let cell = if ch == '.' {
                    None
                } else {
                    Some(ch as u32 - '0' as u32)
                };
                board.set(row, col, cell);
                if col == 8 {
                    row += 1;
                    col = 0;
                } else {
                    col += 1;
                }
                assert(board@ =~~= grid_of_cells(cell_chars(after)));
            }
        }
        assert(text@.take(text@.len() as int) =~= text@);
        Ok(board)
    }
}

/// The character for the digit `d`, for `d` from 0 to 9.
pub open spec fn digit_char(d: int) -> char {
    ((d + 48) as u8) as char
}

/// The decimal numeral of `n`, without leading zeros.
pub open spec fn decimal(n: nat) -> Seq<char>
    decreases n,
{
    if n < 10 {
        seq![digit_char(n as int)]
    } else {
        decimal(n / 10).push(digit_char((n % 10) as int))
    }
}

/// How a cell is written: `.` for an empty cell, and the decimal numeral of
/// its number otherwise.
pub open spec fn cell_text(cell: Option<u32>) -> Seq<char> {
    match cell {
        Some(x) => decimal(x as nat),
        None => seq!['.'],
    }
}

/// The line that is written above the first row and below every third row.
pub open spec fn border_text() -> Seq<char> {
    "+-------+-------+-------+\n"@
}

/// How a row is written: its nine cells in three groups of three, with a
/// bar before each group and at the end of the line.
#[verifier::opaque]
pub open spec fn row_text(row: Seq<Option<u32>>) -> Seq<char> {
    "| "@ + cell_text(row[0]) + " "@ + cell_text(row[1]) + " "@ + cell_text(row[2]) + " | "@
        + cell_text(row[3]) + " "@ + cell_text(row[4]) + " "@ + cell_text(row[5]) + " | "@
        + cell_text(row[6]) + " "@ + cell_text(row[7]) + " "@ + cell_text(row[8]) + " |\n"@
}

/// How three rows are written, starting at row `3 * band`: the rows, then a
/// border.
pub open spec fn band_text(g: Grid, band: int) -> Seq<char> {
    row_text(g[3 * band]) + row_text(g[3 * band + 1]) + row_text(g[3 * band + 2]) + border_text()
}

/// How a board is written: a border, then the three bands.
pub open spec fn board_text(g: Grid) -> Seq<char> {
    border_text() + band_text(g, 0) + band_text(g, 1) + band_text(g, 2)
}

/// The numeral of a single digit.
fn digit_str(d: u32) -> (text: &'static str)
    requires
        d < 10,
    ensures
        text@ == seq![digit_char(d as int)],
{
    proof {
        reveal_strlit("0");
        reveal_strlit("1");
        reveal_strlit("2");
        reveal_strlit("3");
        reveal_strlit("4");
        reveal_strlit("5");
        reveal_strlit("6");
        reveal_strlit("7");
        reveal_strlit("8");
        reveal_strlit("9");
    }
    let text = match d {
        0 => "0",
        1 => "1",
        2 => "2",
        3 => "3",
        4 => "4",
        5 => "5",
        6 => "6",
        7 => "7",
        8 => "8",
        _ => "9",
    };
    assert(text@ =~= seq![digit_char(d as int)]);
    text
}

/// The decimal numeral of `x`.
fn decimal_string(x: u32) -> (text: String)
    ensures
        text@ == decimal(x as nat),
    decreases x,
{
    if x < 10 {
        String::from_str(digit_str(x))
    } else {
        let mut text = decimal_string(x / 10);
        text.append(digit_str(x % 10));
        text
    }
}

/// Writes a cell: `.` for an empty cell, and the decimal numeral of its
/// number otherwise.
pub fn num_fmt(num: Option<u32>) -> (text: String)
    ensures
        text@ == cell_text(num),
{
    match num {
        Some(x) => decimal_string(x),
        None => {
            proof {
                reveal_strlit(".");
            }
            assert("."@ =~= seq!['.']);
            String::from_str(".")
        },
    }
}

/// Writes a row, as `row_text` lays it out.
fn row_string(row: &[Option<u32>; 9]) -> (text: String)
    ensures
        text@ == row_text(row@),
{
    reveal(row_text);
    let mut text = String::from_str("| ");
    text.append(num_fmt(row[0]).as_str());
    text.append(" ");
    text.append(num_fmt(row[1]).as_str());
    text.append(" ");
    text.append(num_fmt(row[2]).as_str());
    text.append(" | ");
    text.append(num_fmt(row[3]).as_str());
    text.append(" ");
    text.append(num_fmt(row[4]).as_str());
    text.append(" ");
    text.append(num_fmt(row[5]).as_str());
    text.append(" | ");
    text.append(num_fmt(row[6]).as_str());
    text.append(" ");
    text.append(num_fmt(row[7]).as_str());
    text.append(" ");
    text.append(num_fmt(row[8]).as_str());
    text.append(" |\n");
    text
}

/// What has been written once `n` rows of band `band` are out: those rows.
spec fn rows_written(g: Grid, band: int, n: nat) -> Seq<char>
    decreases n,
{
    if n == 0 {
        Seq::empty()
    } else {
        rows_written(g, band, (n - 1) as nat) + row_text(g[3 * band + n - 1])
    }
}

/// What has been written once `n` bands are out: the top border and those
/// bands.
spec fn bands_written(g: Grid, n: nat) -> Seq<char>
    decreases n,
{
    if n == 0 {
        border_text()
    } else {
        bands_written(g, (n - 1) as nat) + band_text(g, n - 1)
    }
}

impl SudokuBoard {
    /// Writes the board as thirteen lines: a border, then three bands of
    /// three rows, each band followed by a border.
    pub fn render(&self) -> (text: String)
        ensures
            text@ == board_text(self@),
    {
        let mut text = String::from_str("+-------+-------+-------+\n");
        for group in 0..3usize
            invariant
                text@ == bands_written(self@, group as nat),
        {
            let ghost above = text@;
            for row in 0..3usize
                invariant
                    group < 3,
                    text@ == above + rows_written(self@, group as int, row as nat),
            {
                let row_i = 3 * group + row;
                assert(self.contents[row_i as int]@ =~= self@[row_i as int]);
                text.append(row_string(&self.contents[row_i]).as_str());
                proof {
                    lemma_regroup(
                        above,
                        rows_written(self@, group as int, row as nat),
                        row_text(self@[row_i as int]),
                        rows_written(self@, group as int, (row + 1) as nat),
                    );
                }
            }
            text.append("+-------+-------+-------+\n");
            proof {
                lemma_rows_written(self@, group as int);
                lemma_regroup(
                    above,
                    rows_written(self@, group as int, 3),
                    border_text(),
                    band_text(self@, group as int),
                );
            }
        }
        proof {
            reveal_with_fuel(bands_written, 4);
        }
        text
    }
}

/// Three rows of a band and a border make up the band.
proof fn lemma_rows_written(g: Grid, band: int)
    ensures
        rows_written(g, band, 3) + border_text() == band_text(g, band),
{
    reveal_with_fuel(rows_written, 4);
    let r0 = row_text(g[3 * band]);
    let r1 = row_text(g[3 * band + 1]);
    let r2 = row_text(g[3 * band + 2]);
    assert(rows_written(g, band, 3) == Seq::<char>::empty() + r0 + r1 + r2);
    assert(Seq::<char>::empty() + r0 =~= r0);
}

/// Appending `a` and then `b` appends `a + b`.
proof fn lemma_regroup(above: Seq<char>, a: Seq<char>, b: Seq<char>, ab: Seq<char>)
    requires
        a + b == ab,
    ensures
        above + a + b == above + ab,
{
    assert(above + a + b =~= above + (a + b));
}

/// An empty text names no cell.
proof fn lemma_cell_chars_empty()
    ensures
        cell_chars(Seq::<char>::empty()) == Seq::<char>::empty(),
{
    reveal(Seq::filter);
}

/// Every filled cell of `g` holds a number below ten, which is written as
/// one character.
pub open spec fn single_digits(g: Grid) -> bool {
    forall|r: int, c: int| in_grid(r, c) && (#[trigger] g[r][c]) is Some ==> g[r][c]->0 <= 9
}

/// The character that names `cell`, for a cell that is empty or holds a
/// number below ten.
pub open spec fn char_of_cell(cell: Option<u32>) -> char {
    match cell {
        Some(x) => digit_char(x as int),
        None => '.',
    }
}

/// A text without a character that names a cell names no cell.
proof fn lemma_layout_only(text: Seq<char>)
    requires
        forall|i: int| 0 <= i < text.len() ==> !is_cell_char(#[trigger] text[i]),
    ensures
        cell_chars(text) == Seq::<char>::empty(),
    decreases text.len(),
{
    if text.len() == 0 {
        assert(text =~= Seq::<char>::empty());
        lemma_cell_chars_empty();
    } else {
        lemma_layout_only(text.drop_last());
        text.drop_last().lemma_filter_push(text.last(), cell_test());
        assert(text.drop_last().push(text.last()) =~= text);
    }
}

/// A cell that is empty or holds a number below ten is written as the one
/// character that names it.
proof fn lemma_cell_written(cell: Option<u32>)
    requires
        cell is Some ==> cell->0 <= 9,
    ensures
        cell_text(cell) == seq![char_of_cell(cell)],
        cell_chars(cell_text(cell)) == seq![char_of_cell(cell)],
        cell_of_char(char_of_cell(cell)) == cell,
{
    let ch = char_of_cell(cell);
    assert(is_cell_char(ch));
    lemma_cell_chars_empty();
    Seq::<char>::empty().lemma_filter_push(ch, cell_test());
    assert(Seq::<char>::empty().push(ch) =~= seq![ch]);
}

/// Layout after a text adds no cell to it.
proof fn lemma_append_layout(text: Seq<char>, layout: Seq<char>)
    requires
        cell_chars(layout) == Seq::<char>::empty(),
    ensures
        cell_chars(text + layout) == cell_chars(text),
{
    Seq::filter_distributes_over_add(text, layout, cell_test());
    assert(cell_chars(text) + Seq::<char>::empty() =~= cell_chars(text));
}

/// A written cell after a text adds the character that names the cell.
proof fn lemma_append_cell(text: Seq<char>, cell: Option<u32>)
    requires
        cell is Some ==> cell->0 <= 9,
    ensures
        cell_chars(text + cell_text(cell)) == cell_chars(text).push(char_of_cell(cell)),
{
    lemma_cell_written(cell);
    Seq::filter_distributes_over_add(text, cell_text(cell), cell_test());
    assert(cell_chars(text) + seq![char_of_cell(cell)] =~= cell_chars(text).push(
        char_of_cell(cell),
    ));
}

/// The bars and blanks of a row, and the border, name no cell.
proof fn lemma_layout_written()
    ensures
        cell_chars("| "@) == Seq::<char>::empty(),
        cell_chars(" "@) == Seq::<char>::empty(),
        cell_chars(" | "@) == Seq::<char>::empty(),
        cell_chars(" |\n"@) == Seq::<char>::empty(),
        cell_chars(border_text()) == Seq::<char>::empty(),
{
    assert(cell_chars("| "@) == Seq::<char>::empty()) by {
        reveal_strlit("| ");
        lemma_layout_only("| "@);
    }
    assert(cell_chars(" "@) == Seq::<char>::empty()) by {
        reveal_strlit(" ");
        lemma_layout_only(" "@);
    }
    assert(cell_chars(" | "@) == Seq::<char>::empty()) by {
        reveal_strlit(" | ");
        lemma_layout_only(" | "@);
    }
    assert(cell_chars(" |\n"@) == Seq::<char>::empty()) by {
        reveal_strlit(" |\n");
        lemma_layout_only(" |\n"@);
    }
    assert(cell_chars(border_text()) == Seq::<char>::empty()) by {
        reveal_strlit("+-------+-------+-------+\n");
        lemma_layout_only(border_text());
    }
}

/// `text`, followed by an opening of layout and a group of three cells with
/// blanks between them.
#[verifier::opaque]
spec fn with_group(
    text: Seq<char>,
    open: Seq<char>,
    a: Option<u32>,
    b: Option<u32>,
    c: Option<u32>,
) -> Seq<char> {
    text + open + cell_text(a) + " "@ + cell_text(b) + " "@ + cell_text(c)
}

/// A written group adds the characters that name its three cells.
proof fn lemma_group_written(
    text: Seq<char>,
    open: Seq<char>,
    a: Option<u32>,
    b: Option<u32>,
    c: Option<u32>,
)
    requires
        cell_chars(open) == Seq::<char>::empty(),
        a is Some ==> a->0 <= 9,
        b is Some ==> b->0 <= 9,
        c is Some ==> c->0 <= 9,
    ensures
        cell_chars(with_group(text, open, a, b, c)) == cell_chars(text).push(char_of_cell(a)).push(
            char_of_cell(b),
        ).push(char_of_cell(c)),
{
    reveal(with_group);
    lemma_layout_written();
    let t1 = text + open;
    lemma_append_layout(text, open);
    let t2 = t1 + cell_text(a);
    lemma_append_cell(t1, a);
    let t3 = t2 + " "@;
    lemma_append_layout(t2, " "@);
    let t4 = t3 + cell_text(b);
    lemma_append_cell(t3, b);
    let t5 = t4 + " "@;
    lemma_append_layout(t4, " "@);
    lemma_append_cell(t5, c);
}

/// A written row is three groups and the end of the line.
proof fn lemma_row_groups(row: Seq<Option<u32>>)
    ensures
        row_text(row) == with_group(
            with_group(
                with_group(Seq::empty(), "| "@, row[0], row[1], row[2]),
                " | "@,
                row[3],
                row[4],
                row[5],
            ),
            " | "@,
            row[6],
            row[7],
            row[8],
        ) + " |\n"@,
{
    reveal(row_text);
    reveal(with_group);
    assert(Seq::<char>::empty() + "| "@ =~= "| "@);
}

/// The characters that name the cells of a row.
pub open spec fn row_chars(row: Seq<Option<u32>>) -> Seq<char> {
    Seq::new(9, |c: int| char_of_cell(row[c]))
}

/// The characters that name the cells of a written row are those of its
/// nine cells.
proof fn lemma_row_written(row: Seq<Option<u32>>)
    requires
        forall|c: int| 0 <= c < 9 && (#[trigger] row[c]) is Some ==> row[c]->0 <= 9,
    ensures
        cell_chars(row_text(row)) == row_chars(row),
{
    let first = with_group(Seq::empty(), "| "@, row[0], row[1], row[2]);
    let second = with_group(first, " | "@, row[3], row[4], row[5]);
    let third = with_group(second, " | "@, row[6], row[7], row[8]);
    lemma_row_groups(row);
    lemma_layout_written();
    lemma_cell_chars_empty();
    lemma_group_written(Seq::empty(), "| "@, row[0], row[1], row[2]);
    lemma_group_written(first, " | "@, row[3], row[4], row[5]);
    lemma_group_written(second, " | "@, row[6], row[7], row[8]);
    lemma_append_layout(third, " |\n"@);
    lemma_row_chars(row);
}

/// The characters that name the cells of a row, one after the other.
proof fn lemma_row_chars(row: Seq<Option<u32>>)
    ensures
        row_chars(row) == Seq::<char>::empty().push(char_of_cell(row[0])).push(
            char_of_cell(row[1]),
        ).push(char_of_cell(row[2])).push(char_of_cell(row[3])).push(char_of_cell(row[4])).push(
            char_of_cell(row[5]),
        ).push(char_of_cell(row[6])).push(char_of_cell(row[7])).push(char_of_cell(row[8])),
{
    let pushed = Seq::<char>::empty().push(char_of_cell(row[0])).push(char_of_cell(row[1])).push(
        char_of_cell(row[2]),
    ).push(char_of_cell(row[3])).push(char_of_cell(row[4])).push(char_of_cell(row[5])).push(
        char_of_cell(row[6]),
    ).push(char_of_cell(row[7])).push(char_of_cell(row[8]));
    assert(row_chars(row) =~= pushed);
}

/// The characters that name the cells of a row of a board whose numbers are
/// all below ten.
proof fn lemma_row_of_grid_written(g: Grid, r: int)
    requires
        single_digits(g),
        0 <= r < 9,
    ensures
        cell_chars(row_text(g[r])) == row_chars(g[r]),
{
    assert forall|c: int| 0 <= c < 9 && (#[trigger] g[r][c]) is Some implies g[r][c]->0 <= 9 by {
        assert(in_grid(r, c));
    }
    lemma_row_written(g[r]);
}

/// The characters that name the cells of a written band are those of its
/// three rows.
proof fn lemma_band_written(g: Grid, band: int)
    requires
        is_grid(g),
        single_digits(g),
        0 <= band < 3,
    ensures
        cell_chars(band_text(g, band)) == band_chars(g, band),
{
    let t0 = row_text(g[3 * band]);
    let t1 = row_text(g[3 * band + 1]);
    let t2 = row_text(g[3 * band + 2]);
    lemma_row_of_grid_written(g, 3 * band);
    lemma_row_of_grid_written(g, 3 * band + 1);
    lemma_row_of_grid_written(g, 3 * band + 2);
    lemma_layout_written();
    Seq::filter_distributes_over_add(t0, t1, cell_test());
    Seq::filter_distributes_over_add(t0 + t1, t2, cell_test());
    lemma_append_layout(t0 + t1 + t2, border_text());
}

/// Three texts of `n` characters each, one after the other, hold `3 * n`
/// characters, and each text starts where the one before it ends.
proof fn lemma_three_parts(a: Seq<char>, b: Seq<char>, c: Seq<char>, n: int)
    requires
        a.len() == n,
        b.len() == n,
        c.len() == n,
    ensures
        (a + b + c).len() == 3 * n,
        forall|i: int| 0 <= i < n ==> (a + b + c)[i] == a[i],
        forall|i: int| 0 <= i < n ==> (a + b + c)[n + i] == b[i],
        forall|i: int| 0 <= i < n ==> (a + b + c)[2 * n + i] == c[i],
{
}

/// The characters that name the cells of the band of `g` that starts at row
/// `3 * band`.
pub open spec fn band_chars(g: Grid, band: int) -> Seq<char> {
    row_chars(g[3 * band]) + row_chars(g[3 * band + 1]) + row_chars(g[3 * band + 2])
}

/// The characters that name the cells of `g`, band by band.
pub open spec fn board_chars(g: Grid) -> Seq<char> {
    band_chars(g, 0) + band_chars(g, 1) + band_chars(g, 2)
}

/// The character that names the cell at `(r, c)` is the one at place
/// `r * 9 + c` among those of the board.
proof fn lemma_board_chars(g: Grid, r: int, c: int)
    requires
        in_grid(r, c),
    ensures
        board_chars(g).len() == 81,
        board_chars(g)[r * 9 + c] == char_of_cell(g[r][c]),
{
    let c0 = band_chars(g, 0);
    let c1 = band_chars(g, 1);
    let c2 = band_chars(g, 2);
    lemma_three_parts(row_chars(g[0]), row_chars(g[1]), row_chars(g[2]), 9);
    lemma_three_parts(row_chars(g[3]), row_chars(g[4]), row_chars(g[5]), 9);
    lemma_three_parts(row_chars(g[6]), row_chars(g[7]), row_chars(g[8]), 9);
    lemma_three_parts(c0, c1, c2, 27);
    let band = r / 3;
    let i = (r - 3 * band) * 9 + c;
    assert(0 <= i < 27);
    assert(r * 9 + c == band * 27 + i);
    assert(row_chars(g[r])[c] == char_of_cell(g[r][c]));
    if band == 0 {
        assert(board_chars(g)[i] == c0[i]);
    } else if band == 1 {
        assert(board_chars(g)[27 + i] == c1[i]);
    } else {
        assert(board_chars(g)[2 * 27 + i] == c2[i]);
    }
}

/// The characters that name the cells of a written board are those of its
/// 81 cells, row by row.
proof fn lemma_board_written(g: Grid)
    requires
        is_grid(g),
        single_digits(g),
    ensures
        cell_chars(board_text(g)) == board_chars(g),
{
    let b0 = band_text(g, 0);
    let b1 = band_text(g, 1);
    let b2 = band_text(g, 2);
    lemma_layout_written();
    lemma_band_written(g, 0);
    lemma_band_written(g, 1);
    lemma_band_written(g, 2);
    Seq::filter_distributes_over_add(border_text(), b0, cell_test());
    Seq::filter_distributes_over_add(border_text() + b0, b1, cell_test());
    Seq::filter_distributes_over_add(border_text() + b0 + b1, b2, cell_test());
    assert(Seq::<char>::empty() + band_chars(g, 0) =~= band_chars(g, 0));
}

/// The cell at `(r, c)` is read back from the characters that name the
/// cells of `g`.
proof fn lemma_cell_read(g: Grid, r: int, c: int)
    requires
        single_digits(g),
        in_grid(r, c),
    ensures
        cell_of_char(board_chars(g)[r * 9 + c]) == g[r][c],
{
    lemma_board_chars(g, r, c);
    lemma_cell_written(g[r][c]);
}

/// A grid is the one that 81 characters name if each of its cells is the one
/// that the character at its place names.
proof fn lemma_grid_read(cells: Seq<char>, g: Grid)
    requires
        is_grid(g),
        cells.len() == 81,
        forall|r: int, c: int|
            in_grid(r, c) ==> cell_of_char(cells[r * 9 + c]) == #[trigger] g[r][c],
    ensures
        grid_of_cells(cells) == g,
{
    assert(grid_of_cells(cells) =~~= g);
}

/// Writing a board and reading it back gives the same board, provided that
/// every number on it is below ten: what `render` writes for `g` names 81
/// cells, and `parse` reads them as `g`.
pub proof fn lemma_render_parse(g: Grid)
    requires
        is_grid(g),
        single_digits(g),
    ensures
        cell_chars(board_text(g)).len() == 81,
        grid_of_cells(cell_chars(board_text(g))) == g,
{
    lemma_board_written(g);
    lemma_board_chars(g, 0, 0);
    let cells = board_chars(g);
    assert forall|r: int, c: int| in_grid(r, c) implies cell_of_char(cells[r * 9 + c])
        == #[trigger] g[r][c] by {
        lemma_cell_read(g, r, c);
    }
    lemma_grid_read(cells, g);
}

} // verus!
