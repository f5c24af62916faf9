//! The text of boards and masks: six lines of eight characters, top row first.
//!
//! On a board `.` is an empty cell and `1` to `5` are the kinds; on a mask `.` is a
//! cell outside the mask and `*` a cell of the mask.

use vstd::prelude::*;
use crate::bitcol::BitCol;
use crate::board::{cols_view, Board};
use crate::grid::in_grid;
use crate::mask::{cols_set, MaskBoard};
use crate::rules::{cells_of, grid_ok, is_width};
use crate::square::{Col, Row, Square};
use crate::text::{
    from_chars, lemma_split_append, lemma_split_nonempty, lemma_split_sep, split_chars, split_on,
    to_chars, views, ParseError, Separator,
};

verus! {

/// The line without the carriage return at its end, if it has one.
pub open spec fn strip_cr(line: Seq<char>) -> Seq<char> {
    if line.len() > 0 && line.last() == '\r' {
        line.drop_last()
    } else {
        line
    }
}

/// The lines of the text. A line ends with a line feed, or with a carriage return and
/// a line feed; the last line may end with the text.
pub open spec fn lines_of(s: Seq<char>) -> Seq<Seq<char>> {
    let pieces = split_on(s, Separator::Newline);
    let ended = pieces.drop_last().map_values(|l: Seq<char>| strip_cr(l));
    if pieces.last().len() == 0 {
        ended
    } else {
        ended.push(pieces.last())
    }
}

/// The value of the cell that the character stands for, if it stands for one.
pub open spec fn cell_of_char(ch: char, mask: bool) -> Option<int> {
    if ch == '.' {
        Some(0)
    } else if mask {
        if ch == '*' {
            Some(1)
        } else {
            None
        }
    } else if '1' <= ch <= '5' {
        Some(ch as int - '0' as int)
    } else {
        None
    }
}

/// The character that stands for the value of a cell.
pub open spec fn char_of_cell(v: int, mask: bool) -> char {
    if v == 0 {
        '.'
    } else if mask {
        '*'
    } else {
        ('0' as int + v) as char
    }
}

/// Whether the value is one that a cell holds: 0 to 5 on a board, 0 or 1 on a mask.
pub open spec fn cell_in_range(v: int, mask: bool) -> bool {
    0 <= v <= if mask {
        1int
    } else {
        5
    }
}

/// What is wrong with the line, if anything is.
pub open spec fn line_error(line: Seq<char>, mask: bool) -> Option<ParseError> {
    if line.len() != 8 {
        Some(ParseError::LineLength)
    } else if exists|c: int| 0 <= c < 8 && cell_of_char(#[trigger] line[c], mask) is None {
        Some(ParseError::InvalidChar)
    } else {
        None
    }
}

/// What is wrong with the first of the first `n` lines with which something is wrong.
pub open spec fn first_line_error(lines: Seq<Seq<char>>, mask: bool, n: int) -> Option<ParseError>
    decreases n,
{
    if n <= 0 {
        None
    } else {
        match first_line_error(lines, mask, n - 1) {
            Some(e) => Some(e),
            None => line_error(lines[n - 1], mask),
        }
    }
}

/// The grid that six lines of eight characters write: the first line is the top row.
pub open spec fn grid_of_lines(lines: Seq<Seq<char>>, mask: bool) -> Seq<Seq<int>> {
    Seq::new(8, |c: int| Seq::new(6, |r: int| cell_of_char(lines[5 - r][c], mask).unwrap()))
}

/// The grid that the text writes, or what is wrong with the text.
pub open spec fn grid_of_text(s: Seq<char>, mask: bool) -> Result<Seq<Seq<int>>, ParseError> {
    let lines = lines_of(s);
    if lines.len() != 6 {
        Err(ParseError::LineCount)
    } else {
        match first_line_error(lines, mask, 6) {
            Some(e) => Err(e),
            None => Ok(grid_of_lines(lines, mask)),
        }
    }
}

/// The grid of the board that the text writes, or what is wrong with the text. The
/// columns that hold a piece must be the first ones.
pub open spec fn board_of_text(s: Seq<char>) -> Result<Seq<Seq<int>>, ParseError> {
    match grid_of_text(s, false) {
        Err(e) => Err(e),
        Ok(g) => if packed(g) {
            Ok(g)
        } else {
            Err(ParseError::NotLeftPacked)
        },
    }
}

/// Whether the columns of the grid that hold a piece are the first ones.
pub open spec fn packed(g: Seq<Seq<int>>) -> bool {
    exists|w: int| is_width(g, w)
}

/// The cells of the mask that the text writes, or what is wrong with the text.
pub open spec fn mask_of_text(s: Seq<char>) -> Result<Set<(int, int)>, ParseError> {
    match grid_of_text(s, true) {
        Err(e) => Err(e),
        Ok(g) => Ok(cells_of(g, 1)),
    }
}

/// The line of the text of the grid at the place `j`: the row of index `5 - j`.
pub open spec fn row_text(g: Seq<Seq<int>>, mask: bool, j: int) -> Seq<char> {
    Seq::new(8, |c: int| char_of_cell(g[c][5 - j], mask))
}

/// The first `n` lines of the text of the grid, each with the line feed at its end.
pub open spec fn rows_text(g: Seq<Seq<int>>, mask: bool, n: int) -> Seq<char>
    decreases n,
{
    if n <= 0 {
        Seq::empty()
    } else {
        (rows_text(g, mask, n - 1) + row_text(g, mask, n - 1)).push('\n')
    }
}

/// The text of the grid.
pub open spec fn text_of_grid(g: Seq<Seq<int>>, mask: bool) -> Seq<char> {
    rows_text(g, mask, 6)
}

/// The grid of the mask: 1 in the cells of the mask and 0 elsewhere.
pub open spec fn grid_of_mask(m: Set<(int, int)>) -> Seq<Seq<int>> {
    Seq::new(
        8,
        |c: int|
            Seq::new(
                6,
                |r: int|
                    if m.contains((c, r)) {
                        1int
                    } else {
                        0
                    },
            ),
    )
}

/// The character of a cell is read as the value of the cell.
pub proof fn lemma_cell_char(v: int, mask: bool)
    requires
        cell_in_range(v, mask),
    ensures
        cell_of_char(char_of_cell(v, mask), mask) == Some(v),
        char_of_cell(v, mask) != '\n',
        char_of_cell(v, mask) != '\r',
{
}

/// The pieces between the line feeds of the first `n` lines of the text of a grid are
/// those lines and an empty piece.
pub proof fn lemma_rows_split(g: Seq<Seq<int>>, mask: bool, n: int)
    requires
        0 <= n <= 6,
        g.len() == 8,
        forall|c: int, r: int| 0 <= c < 8 && 0 <= r < 6 ==> cell_in_range(#[trigger] g[c][r], mask),
    ensures
        split_on(rows_text(g, mask, n), Separator::Newline) == Seq::new(
            n as nat,
            |j: int| row_text(g, mask, j),
        ).push(Seq::<char>::empty()),
    decreases n,
{
    let sep = Separator::Newline;
    if n == 0 {
        assert(split_on(rows_text(g, mask, 0), sep) =~= Seq::new(0, |j: int| row_text(g, mask, j)).push(
            Seq::<char>::empty(),
        ));
    } else {
        lemma_rows_split(g, mask, n - 1);
        let before = rows_text(g, mask, n - 1);
        let line = row_text(g, mask, n - 1);
        assert forall|i: int| 0 <= i < line.len() implies !sep.matches(#[trigger] line[i]) by {
            lemma_cell_char(g[i][5 - (n - 1)], mask);
        }
        lemma_split_append(before, line, sep);
        lemma_split_sep(before + line, '\n', sep);
        let p = split_on(before, sep);
        assert(p.last() + line =~= line);
        assert(p.drop_last().push(line).push(Seq::<char>::empty()) =~= Seq::new(
            n as nat,
            |j: int| row_text(g, mask, j),
        ).push(Seq::<char>::empty()));
    }
}

/// No line that is written is wrong.
pub proof fn lemma_rows_no_error(g: Seq<Seq<int>>, mask: bool, lines: Seq<Seq<char>>, n: int)
    requires
        0 <= n <= 6,
        g.len() == 8,
        lines.len() == 6,
        forall|j: int| 0 <= j < 6 ==> #[trigger] lines[j] == row_text(g, mask, j),
        forall|c: int, r: int| 0 <= c < 8 && 0 <= r < 6 ==> cell_in_range(#[trigger] g[c][r], mask),
    ensures
        first_line_error(lines, mask, n) is None,
    decreases n,
{
    if n > 0 {
        lemma_rows_no_error(g, mask, lines, n - 1);
        let line = lines[n - 1];
        assert(line == row_text(g, mask, n - 1));
        assert forall|c: int| 0 <= c < 8 implies cell_of_char(#[trigger] line[c], mask) is Some by {
            lemma_cell_char(g[c][5 - (n - 1)], mask);
        }
    }
}

/// The text of a grid is read as the grid.
pub proof fn lemma_grid_round_trip(g: Seq<Seq<int>>, mask: bool)
    requires
        g.len() == 8,
        forall|c: int| 0 <= c < 8 ==> (#[trigger] g[c]).len() == 6,
        forall|c: int, r: int| 0 <= c < 8 && 0 <= r < 6 ==> cell_in_range(#[trigger] g[c][r], mask),
    ensures
        grid_of_text(text_of_grid(g, mask), mask) == Ok::<Seq<Seq<int>>, ParseError>(g),
{
    let s = text_of_grid(g, mask);
    lemma_rows_split(g, mask, 6);
    let pieces = split_on(s, Separator::Newline);
    let rows = Seq::new(6, |j: int| row_text(g, mask, j));
    assert(pieces == rows.push(Seq::<char>::empty()));
    assert(pieces.drop_last() =~= rows);
    let lines = lines_of(s);
    assert(lines =~= rows) by {
        assert forall|j: int| 0 <= j < 6 implies strip_cr(rows[j]) == rows[j] by {
            lemma_cell_char(g[7][5 - j], mask);
            assert(rows[j].last() == char_of_cell(g[7][5 - j], mask));
        }
        assert(pieces.drop_last().map_values(|l: Seq<char>| strip_cr(l)) =~= rows);
    }
    lemma_rows_no_error(g, mask, lines, 6);
    let h = grid_of_lines(lines, mask);
    assert forall|c: int| 0 <= c < 8 implies #[trigger] h[c] == g[c] by {
        assert forall|r: int| 0 <= r < 6 implies h[c][r] == g[c][r] by {
            lemma_cell_char(g[c][r], mask);
            assert(lines[5 - r][c] == char_of_cell(g[c][5 - (5 - r)], mask));
        }
        assert(h[c] =~= g[c]);
    }
    assert(h =~= g);
}

/// The text of the grid of a board is read as that grid.
pub proof fn lemma_board_round_trip(g: Seq<Seq<int>>)
    requires
        grid_ok(g),
    ensures
        board_of_text(text_of_grid(g, false)) == Ok::<Seq<Seq<int>>, ParseError>(g),
{
    assert forall|c: int, r: int| 0 <= c < 8 && 0 <= r < 6 implies cell_in_range(
        #[trigger] g[c][r],
        false,
    ) by {
        assert(0 <= g[c][r] <= 5);
    }
    lemma_grid_round_trip(g, false);
    let w = choose|w: int| is_width(g, w);
    assert(is_width(g, w));
    assert(packed(g));
}

/// The text of a mask is read as that mask.
pub proof fn lemma_mask_round_trip(m: Set<(int, int)>)
    requires
        forall|p: (int, int)| m.contains(p) ==> in_grid(p),
    ensures
        mask_of_text(text_of_grid(grid_of_mask(m), true)) == Ok::<Set<(int, int)>, ParseError>(m),
{
    let g = grid_of_mask(m);
    lemma_grid_round_trip(g, true);
    assert(cells_of(g, 1) =~= m);
}

/// Once something is wrong with a line, it stays the first thing that is wrong.
pub proof fn lemma_first_error_stays(lines: Seq<Seq<char>>, mask: bool, n: int, m: int)
    requires
        0 <= n <= m,
        first_line_error(lines, mask, n) is Some,
    ensures
        first_line_error(lines, mask, m) == first_line_error(lines, mask, n),
    decreases m,
{
    if m > n {
        lemma_first_error_stays(lines, mask, n, m - 1);
    }
}

/// The lines of the text.
pub fn split_lines(s: &Vec<char>) -> (res: Vec<Vec<char>>)
    ensures
        views(res@) == lines_of(s@),
{
    let pieces = split_chars(s, Separator::Newline);
    proof {
        lemma_split_nonempty(s@, Separator::Newline);
    }
    let ghost p = views(pieces@);
    let n: usize = pieces.len();
    let mut res: Vec<Vec<char>> = Vec::new();
    let mut i: usize = 0;
    while i + 1 < n
        invariant
            0 <= i < n,
            n == pieces.len(),
            p == views(pieces@),
            views(res@) == p.subrange(0, i as int).map_values(|l: Seq<char>| strip_cr(l)),
        decreases n - i,
    {
        let mut line: Vec<char> = pieces[i].clone();
        proof {
            assert(line@ == pieces[i as int]@);
            assert(p[i as int] == pieces[i as int]@);
        }
        let len: usize = line.len();
        if len > 0 && line[len - 1] == '\r' {
            let _ = line.pop();
        }
        let ghost done = views(res@);
        res.push(line);
        proof {
            assert(line@ == strip_cr(p[i as int]));
            assert(views(res@) =~= done.push(line@));
            assert(p.subrange(0, i + 1).map_values(|l: Seq<char>| strip_cr(l)) =~= p.subrange(
                0,
                i as int,
            ).map_values(|l: Seq<char>| strip_cr(l)).push(strip_cr(p[i as int])));
        }
        i = i + 1;
    }
    proof {
        assert(p.subrange(0, n - 1) =~= p.drop_last());
        assert(p.last() == pieces[n - 1]@);
    }
    if pieces[n - 1].len() > 0 {
        let last: Vec<char> = pieces[n - 1].clone();
        let ghost done = views(res@);
        res.push(last);
        proof {
            assert(views(res@) =~= done.push(last@));
        }
    }
    res
}

/// The value of the cell that the character stands for, if it stands for one.
pub fn cell_value(ch: char, mask: bool) -> (res: Option<u8>)
    ensures
        res is Some <==> cell_of_char(ch, mask) is Some,
        res is Some ==> res->0 == cell_of_char(ch, mask)->0 && cell_in_range(res->0 as int, mask),
{
    if ch == '.' {
        Some(0)
    } else if mask {
        if ch == '*' {
            Some(1)
        } else {
            None
        }
    } else if '1' <= ch && ch <= '5' {
        Some(((ch as u32) - ('0' as u32)) as u8)
    } else {
        None
    }
}

/// The character that stands for the value of a cell.
pub fn cell_char(v: u8, mask: bool) -> (res: char)
    requires
        cell_in_range(v as int, mask),
    ensures
        res == char_of_cell(v as int, mask),
{
    if v == 0 {
        '.'
    } else if mask {
        '*'
    } else if v == 1 {
        '1'
    } else if v == 2 {
        '2'
    } else if v == 3 {
        '3'
    } else if v == 4 {
        '4'
    } else {
        '5'
    }
}

/// The bit-columns of the grid that the text writes, or what is wrong with the text.
pub fn parse_cols(s: &str, mask: bool) -> (res: Result<[BitCol; 8], ParseError>)
    ensures
        res matches Ok(cols) ==> grid_of_text(s@, mask) == Ok::<Seq<Seq<int>>, ParseError>(
            cols_view(cols),
        ) && forall|c: int, r: int|
            0 <= c < 8 && 0 <= r < 6 ==> cell_in_range(#[trigger] cols[c].cell(r), mask),
        res matches Err(e) ==> grid_of_text(s@, mask) == Err::<Seq<Seq<int>>, ParseError>(e),
{
    let chars = to_chars(s);
    let lines = split_lines(&chars);
    let ghost ls = views(lines@);
    if lines.len() != 6 {
        return Err(ParseError::LineCount);
    }
    let mut cols: [BitCol; 8] = [BitCol::zero(); 8];
    let mut j: usize = 0;
    while j < 6
        invariant
            0 <= j <= 6,
            lines.len() == 6,
            ls == views(lines@),
            ls == lines_of(s@),
            first_line_error(ls, mask, j as int) is None,
            forall|c: int, k: int|
                0 <= c < 8 && 0 <= k < j ==> #[trigger] cols[c].cell(5 - k) == cell_of_char(
                    ls[k][c],
                    mask,
                ).unwrap() && cell_in_range(cols[c].cell(5 - k), mask),
        decreases 6 - j,
    {
        let line = &lines[j];
        proof {
            assert(ls[j as int] == line@);
        }
        if line.len() != 8 {
            proof {
                assert(first_line_error(ls, mask, j + 1) == Some(ParseError::LineLength));
                lemma_first_error_stays(ls, mask, j + 1, 6);
            }
            return Err(ParseError::LineLength);
        }
        let row = Row::from_index(5 - j).unwrap();
        let mut c: usize = 0;
        while c < 8
            invariant
                0 <= c <= 8,
                0 <= j < 6,
                line@.len() == 8,
                ls.len() == 6,
                ls[j as int] == line@,
                ls == lines_of(s@),
                row.index() == 5 - j,
                first_line_error(ls, mask, j as int) is None,
                forall|i: int| 0 <= i < c ==> cell_of_char(#[trigger] line@[i], mask) is Some,
                forall|i: int, k: int|
                    0 <= i < 8 && 0 <= k < j ==> #[trigger] cols[i].cell(5 - k) == cell_of_char(
                        ls[k][i],
                        mask,
                    ).unwrap() && cell_in_range(cols[i].cell(5 - k), mask),
                forall|i: int|
                    0 <= i < c ==> #[trigger] cols[i].cell(5 - j) == cell_of_char(
                        line@[i],
                        mask,
                    ).unwrap() && cell_in_range(cols[i].cell(5 - j), mask),
            decreases 8 - c,
        {
            match cell_value(line[c], mask) {
                None => {
                    proof {
                        assert(line_error(line@, mask) == Some(ParseError::InvalidChar));
                        assert(first_line_error(ls, mask, j + 1) == Some(ParseError::InvalidChar));
                        lemma_first_error_stays(ls, mask, j + 1, 6);
                    }
                    return Err(ParseError::InvalidChar);
                },
                Some(v) => {
                    let ghost before = cols;
                    let mut bc = cols[c];
                    bc.set(row, v);
                    cols[c] = bc;
                    proof {
                        assert forall|i: int, k: int| 0 <= i < 8 && 0 <= k < j implies #[trigger] cols[i].cell(
                            5 - k,
                        ) == cell_of_char(ls[k][i], mask).unwrap() && cell_in_range(
                            cols[i].cell(5 - k),
                            mask,
                        ) by {
                            if i != c {
                                assert(cols[i] == before[i]);
                            } else {
                                assert(before[i].cell(5 - k) == cell_of_char(ls[k][i], mask).unwrap());
                            }
                        }
                        assert forall|i: int| 0 <= i < c + 1 implies #[trigger] cols[i].cell(5 - j)
                            == cell_of_char(line@[i], mask).unwrap() && cell_in_range(
                            cols[i].cell(5 - j),
                            mask,
                        ) by {
                            if i != c {
                                assert(cols[i] == before[i]);
                            }
                        }
                    }
                },
            }
            c = c + 1;
        }
        proof {
            assert(line_error(line@, mask) is None);
        }
        j = j + 1;
    }
    proof {
        let g = grid_of_lines(ls, mask);
        let v = cols_view(cols);
        assert forall|c: int| 0 <= c < 8 implies #[trigger] v[c] == g[c] by {
            assert forall|r: int| 0 <= r < 6 implies v[c][r] == g[c][r] by {
                assert(v[c][r] == cols[c].cell(r));
                assert(cols[c].cell(5 - (5 - r)) == cell_of_char(ls[5 - r][c], mask).unwrap());
            }
            assert(v[c] =~= g[c]);
        }
        assert(v =~= g);
        assert forall|c: int, r: int| 0 <= c < 8 && 0 <= r < 6 implies cell_in_range(
            #[trigger] cols[c].cell(r),
            mask,
        ) by {
            assert(cell_in_range(cols[c].cell(5 - (5 - r)), mask));
        }
    }
    Ok(cols)
}

/// The text of the grid that the bit-columns hold.
pub fn format_cols(cols: &[BitCol; 8], mask: bool) -> (res: Vec<char>)
    requires
        forall|c: int, r: int|
            0 <= c < 8 && 0 <= r < 6 ==> cell_in_range(#[trigger] cols[c].cell(r), mask),
    ensures
        res@ == text_of_grid(cols_view(*cols), mask),
{
    let ghost g = cols_view(*cols);
    let mut res: Vec<char> = Vec::new();
    let mut j: usize = 0;
    while j < 6
        invariant
            0 <= j <= 6,
            g == cols_view(*cols),
            forall|c: int, r: int|
                0 <= c < 8 && 0 <= r < 6 ==> cell_in_range(#[trigger] cols[c].cell(r), mask),
            res@ == rows_text(g, mask, j as int),
        decreases 6 - j,
    {
        let row = Row::from_index(5 - j).unwrap();
        let ghost before = res@;
        let mut c: usize = 0;
        while c < 8
            invariant
                0 <= c <= 8,
                0 <= j < 6,
                row.index() == 5 - j,
                g == cols_view(*cols),
                forall|i: int, r: int|
                    0 <= i < 8 && 0 <= r < 6 ==> cell_in_range(#[trigger] cols[i].cell(r), mask),
                res@ == before + row_text(g, mask, j as int).subrange(0, c as int),
            decreases 8 - c,
        {
            let v: u8 = cols[c].get(row);
            proof {
                assert(cell_in_range(cols[c as int].cell(5 - j), mask));
                assert(g[c as int][5 - j] == cols[c as int].cell(5 - j));
            }
            res.push(cell_char(v, mask));
            proof {
                let line = row_text(g, mask, j as int);
                assert(line.subrange(0, c as int).push(line[c as int]) =~= line.subrange(0, c + 1));
                assert(res@ =~= before + line.subrange(0, c + 1));
            }
            c = c + 1;
        }
        res.push('\n');
        proof {
            let line = row_text(g, mask, j as int);
            assert(line.subrange(0, 8) =~= line);
        }
        j = j + 1;
    }
    res
}

impl Board {
    /// The board whose columns are the eight bit-columns, whose cells hold 0 to 5, if
    /// the columns that hold a piece are the first ones.
    pub fn from_cols(cols: [BitCol; 8]) -> (res: Result<Board, ParseError>)
        requires
            forall|c: int, r: int| 0 <= c < 8 && 0 <= r < 6 ==> #[trigger] cols[c].cell(r) <= 5,
        ensures
            res is Ok <==> packed(cols_view(cols)),
            res matches Ok(b) ==> b.wf() && b@ == cols_view(cols),
            res matches Err(e) ==> e == ParseError::NotLeftPacked,
    {
        let mut width: usize = 0;
        while width < 8 && !cols[width].is_zero()
            invariant
                0 <= width <= 8,
                forall|c: int| 0 <= c < width ==> !(#[trigger] cols[c]).is_blank(),
            decreases 8 - width,
        {
            width = width + 1;
        }
        let mut c: usize = width;
        while c < 8
            invariant
                width <= c <= 8,
                forall|k: int| 0 <= k < width ==> !(#[trigger] cols[k]).is_blank(),
                width < 8 ==> cols[width as int].is_blank(),
                forall|k: int| width <= k < c ==> (#[trigger] cols[k]).is_blank(),
            decreases 8 - c,
        {
            if !cols[c].is_zero() {
                proof {
                    if packed(cols_view(cols)) {
                        let w = choose|w: int| is_width(cols_view(cols), w);
                        crate::board::lemma_blank_view(cols[width as int]);
                        crate::board::lemma_blank_view(cols[c as int]);
                        assert(cols_view(cols)[width as int] == cols[width as int]@);
                        assert(cols_view(cols)[c as int] == cols[c as int]@);
                    }
                }
                return Err(ParseError::NotLeftPacked);
            }
            c = c + 1;
        }
        proof {
            assert forall|k: int| 0 <= k < 8 implies (k < width) == !crate::rules::col_is_blank(
                #[trigger] cols_view(cols)[k],
            ) by {
                crate::board::lemma_blank_view(cols[k]);
                assert(cols_view(cols)[k] == cols[k]@);
            }
            assert(is_width(cols_view(cols), width as int));
        }
        Ok(Board::from_packed_cols(cols, width as u32))
    }

    /// The board that the text writes, or what is wrong with the text.
    pub fn parse(s: &str) -> (res: Result<Board, ParseError>)
        ensures
            res matches Ok(b) ==> b.wf() && board_of_text(s@) == Ok::<Seq<Seq<int>>, ParseError>(b@),
            res matches Err(e) ==> board_of_text(s@) == Err::<Seq<Seq<int>>, ParseError>(e),
    {
        match parse_cols(s, false) {
            Err(e) => Err(e),
            Ok(cols) => {
                proof {
                    assert forall|c: int, r: int| 0 <= c < 8 && 0 <= r < 6 implies #[trigger] cols[c].cell(
                        r,
                    ) <= 5 by {
                        assert(cell_in_range(cols[c].cell(r), false));
                    }
                }
                let res = Board::from_cols(cols);
                proof {
                    assert(grid_of_text(s@, false) == Ok::<Seq<Seq<int>>, ParseError>(
                        cols_view(cols),
                    ));
                }
                res
            },
        }
    }

    /// The text of the board.
    pub fn to_string(&self) -> (res: String)
        ensures
            res@ == text_of_grid(self@, false),
    {
        let cols = self.to_cols();
        let chars = format_cols(&cols, false);
        from_chars(&chars)
    }
}

impl MaskBoard {
    /// The mask that the text writes, or what is wrong with the text.
    pub fn parse(s: &str) -> (res: Result<MaskBoard, ParseError>)
        ensures
            res matches Ok(m) ==> m.wf() && mask_of_text(s@) == Ok::<Set<(int, int)>, ParseError>(m@),
            res matches Err(e) ==> mask_of_text(s@) == Err::<Set<(int, int)>, ParseError>(e),
    {
        match parse_cols(s, true) {
            Err(e) => Err(e),
            Ok(cols) => {
                let res = MaskBoard::from_cols(cols);
                proof {
                    let g = cols_view(cols);
                    assert forall|p: (int, int)| cols_set(cols).contains(p) == cells_of(g, 1).contains(
                        p,
                    ) by {
                        if in_grid(p) {
                            assert(g[p.0][p.1] == cols[p.0].cell(p.1));
                            assert(cell_in_range(cols[p.0].cell(p.1), true));
                        }
                    }
                    assert(cols_set(cols) =~= cells_of(g, 1));
                }
                Ok(res)
            },
        }
    }

    /// The text of the mask.
    pub fn to_string(&self) -> (res: String)
        ensures
            res@ == text_of_grid(grid_of_mask(self@), true),
    {
        let mut cols: [BitCol; 8] = [BitCol::zero(); 8];
        let mut c: usize = 0;
        while c < 8
            invariant
                0 <= c <= 8,
                forall|k: int, r: int|
                    0 <= k < c && 0 <= r < 6 ==> #[trigger] cols[k].has(r) == self@.contains((k, r))
                        && cols[k].is_mask(),
                forall|k: int| c <= k < 8 ==> (#[trigger] cols[k]).is_blank(),
            decreases 8 - c,
        {
            let ghost before = cols;
            let bc = self.col_bits(c);
            cols[c] = bc;
            proof {
                assert forall|k: int, r: int| 0 <= k < c + 1 && 0 <= r < 6 implies #[trigger] cols[k].has(
                    r,
                ) == self@.contains((k, r)) && cols[k].is_mask() by {
                    if k != c {
                        assert(cols[k] == before[k]);
                    }
                }
                assert forall|k: int| c + 1 <= k < 8 implies (#[trigger] cols[k]).is_blank() by {
                    assert(cols[k] == before[k]);
                }
            }
            c = c + 1;
        }
        proof {
            let g = cols_view(cols);
            let h = grid_of_mask(self@);
            assert forall|k: int| 0 <= k < 8 implies #[trigger] g[k] == h[k] by {
                assert forall|r: int| 0 <= r < 6 implies g[k][r] == h[k][r] by {
                    assert(g[k][r] == cols[k].cell(r));
                    assert(cols[k].has(r) == self@.contains((k, r)));
                    assert(cols[k].is_mask());
                    assert(0 <= cols[k].cell(r) <= 1);
                }
                assert(g[k] =~= h[k]);
            }
            assert(g =~= h);
            assert forall|k: int, r: int| 0 <= k < 8 && 0 <= r < 6 implies cell_in_range(
                #[trigger] cols[k].cell(r),
                true,
            ) by {
                assert(cols[k].has(r) == self@.contains((k, r)));
                assert(cols[k].is_mask());
                assert(0 <= cols[k].cell(r) <= 1);
            }
        }
        let chars = format_cols(&cols, true);
        from_chars(&chars)
    }
}

impl std::str::FromStr for Board {
    type Err = ParseError;

    /// The board that the text writes, or what is wrong with the text.
    fn from_str(s: &str) -> (res: Result<Board, ParseError>)
        ensures
            res matches Ok(b) ==> b.wf() && board_of_text(s@) == Ok::<Seq<Seq<int>>, ParseError>(b@),
            res matches Err(e) ==> board_of_text(s@) == Err::<Seq<Seq<int>>, ParseError>(e),
    {
        Board::parse(s)
    }
}

impl std::str::FromStr for MaskBoard {
    type Err = ParseError;

    /// The mask that the text writes, or what is wrong with the text.
    fn from_str(s: &str) -> (res: Result<MaskBoard, ParseError>)
        ensures
            res matches Ok(m) ==> m.wf() && mask_of_text(s@) == Ok::<Set<(int, int)>, ParseError>(m@),
            res matches Err(e) ==> mask_of_text(s@) == Err::<Set<(int, int)>, ParseError>(e),
    {
        MaskBoard::parse(s)
    }
}

} // verus!
