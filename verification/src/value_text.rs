//! The text of columns, rows, squares, entropies and records of moves.

use vstd::prelude::*;
use crate::action::ActionHistory;
use crate::rng::GameEntropy;
use crate::square::{Col, Row, Square};
use crate::text::{
    decimal_text, format_unsigned, from_chars, lemma_decimal_round_trip, lemma_split_append,
    lemma_split_nonempty, lemma_split_sep, lemma_unsigned_round_trip, parse_unsigned, split_chars,
    split_on, to_chars, unsigned_value, views, ParseError, Separator,
};

verus! {

/// The number from `lo` to `hi` that the text writes, or what is wrong with the text:
/// it must write a number of at most 255.
pub open spec fn small_of_text(s: Seq<char>, lo: int, hi: int) -> Result<int, ParseError> {
    match unsigned_value(s, 255) {
        None => Err(ParseError::InvalidNumber),
        Some(v) => if lo <= v <= hi {
            Ok(v)
        } else {
            Err(ParseError::OutOfRange)
        },
    }
}

/// The number of the square that the text writes, or what is wrong with the text: the
/// number of the column, a comma and the number of the row.
pub open spec fn square_of_text(s: Seq<char>) -> Result<int, ParseError> {
    let fields = split_on(s, Separator::Comma);
    if fields.len() != 2 {
        Err(ParseError::FieldCount)
    } else {
        match small_of_text(fields[0], 1, 8) {
            Err(e) => Err(e),
            Ok(c) => match small_of_text(fields[1], 1, 6) {
                Err(e) => Err(e),
                Ok(r) => Ok(6 * (c - 1) + r),
            },
        }
    }
}

/// The text of the square numbered `n`.
pub open spec fn text_of_square(n: int) -> Seq<char> {
    (decimal_text(1 + (n - 1) / 6).push(',')) + decimal_text(1 + (n - 1) % 6)
}

/// The pieces among the first `n` that are not empty.
pub open spec fn filled(pieces: Seq<Seq<char>>, n: int) -> Seq<Seq<char>>
    decreases n,
{
    if n <= 0 {
        Seq::empty()
    } else if pieces[n - 1].len() == 0 {
        filled(pieces, n - 1)
    } else {
        filled(pieces, n - 1).push(pieces[n - 1])
    }
}

/// The words of the text: what stands between blanks.
pub open spec fn words_of(s: Seq<char>) -> Seq<Seq<char>> {
    let pieces = split_on(s, Separator::Whitespace);
    filled(pieces, pieces.len() as int)
}

/// The numbers of the squares that the first `n` words write, or what is wrong with
/// the first word with which something is wrong.
pub open spec fn squares_of_words(words: Seq<Seq<char>>, n: int) -> Result<Seq<int>, ParseError>
    decreases n,
{
    if n <= 0 {
        Ok(Seq::empty())
    } else {
        match squares_of_words(words, n - 1) {
            Err(e) => Err(e),
            Ok(front) => match square_of_text(words[n - 1]) {
                Err(e) => Err(e),
                Ok(v) => Ok(front.push(v)),
            },
        }
    }
}

/// The record that the text writes, or what is wrong with the text: at most 24
/// squares with blanks between them.
pub open spec fn history_of_text(s: Seq<char>) -> Result<Seq<int>, ParseError> {
    let words = words_of(s);
    if words.len() > 24 {
        Err(ParseError::TooManyMoves)
    } else {
        squares_of_words(words, words.len() as int)
    }
}

/// The text of the first `n` squares of the record, with a blank between two squares.
pub open spec fn text_of_history(h: Seq<int>, n: int) -> Seq<char>
    decreases n,
{
    if n <= 0 {
        Seq::empty()
    } else if n == 1 {
        text_of_square(h[0])
    } else {
        text_of_history(h, n - 1).push(' ') + text_of_square(h[n - 1])
    }
}

/// The digits of a number are no commas, no blanks and no signs.
pub proof fn lemma_decimal_plain(v: int)
    requires
        0 <= v,
    ensures
        decimal_text(v).len() >= 1,
        forall|i: int|
            0 <= i < decimal_text(v).len() ==> !Separator::Comma.matches(#[trigger] decimal_text(v)[i])
                && !Separator::Whitespace.matches(decimal_text(v)[i]) && decimal_text(v)[i] != '-',
{
    lemma_decimal_round_trip(v);
}

/// The text of a square is read as the square.
pub proof fn lemma_square_round_trip(n: int)
    requires
        1 <= n <= 48,
    ensures
        square_of_text(text_of_square(n)) == Ok::<int, ParseError>(n),
        text_of_square(n).len() >= 1,
        forall|i: int|
            0 <= i < text_of_square(n).len() ==> !Separator::Whitespace.matches(
                #[trigger] text_of_square(n)[i],
            ),
{
    let c = 1 + (n - 1) / 6;
    let r = 1 + (n - 1) % 6;
    let sep = Separator::Comma;
    lemma_decimal_plain(c);
    lemma_decimal_plain(r);
    let a = decimal_text(c);
    let b = decimal_text(r);
    lemma_split_append(Seq::<char>::empty(), a, sep);
    assert(Seq::<char>::empty() + a =~= a);
    assert(split_on(a, sep) =~= seq![a]) by {
        assert(split_on(Seq::<char>::empty(), sep) =~= seq![Seq::<char>::empty()]);
    }
    lemma_split_sep(a, ',', sep);
    lemma_split_append(a.push(','), b, sep);
    let fields = split_on(text_of_square(n), sep);
    assert(fields =~= seq![a, b]) by {
        assert(Seq::<char>::empty() + b =~= b);
    }
    lemma_unsigned_round_trip(c, 255);
    lemma_unsigned_round_trip(r, 255);
}

/// The pieces between the blanks of the text of a record are the texts of its squares.
pub proof fn lemma_history_split(h: Seq<int>, n: int)
    requires
        1 <= n <= h.len(),
        forall|i: int| 0 <= i < h.len() ==> 1 <= #[trigger] h[i] <= 48,
    ensures
        split_on(text_of_history(h, n), Separator::Whitespace) == Seq::new(
            n as nat,
            |i: int| text_of_square(h[i]),
        ),
    decreases n,
{
    let sep = Separator::Whitespace;
    let want = Seq::new(n as nat, |i: int| text_of_square(h[i]));
    if n == 1 {
        let t = text_of_square(h[0]);
        lemma_square_round_trip(h[0]);
        lemma_split_append(Seq::<char>::empty(), t, sep);
        assert(Seq::<char>::empty() + t =~= t);
        assert(split_on(Seq::<char>::empty(), sep) =~= seq![Seq::<char>::empty()]);
        assert(split_on(t, sep) =~= want);
    } else {
        lemma_history_split(h, n - 1);
        let before = text_of_history(h, n - 1);
        let t = text_of_square(h[n - 1]);
        lemma_square_round_trip(h[n - 1]);
        lemma_split_sep(before, ' ', sep);
        lemma_split_append(before.push(' '), t, sep);
        assert(Seq::<char>::empty() + t =~= t);
        assert(split_on(text_of_history(h, n), sep) =~= want);
    }
}

/// Pieces that are all filled are all kept.
pub proof fn lemma_filled_all(pieces: Seq<Seq<char>>, n: int)
    requires
        0 <= n <= pieces.len(),
        forall|i: int| 0 <= i < n ==> (#[trigger] pieces[i]).len() > 0,
    ensures
        filled(pieces, n) == pieces.subrange(0, n),
    decreases n,
{
    if n > 0 {
        lemma_filled_all(pieces, n - 1);
        assert(pieces.subrange(0, n - 1).push(pieces[n - 1]) =~= pieces.subrange(0, n));
    } else {
        assert(pieces.subrange(0, 0) =~= Seq::<Seq<char>>::empty());
    }
}

/// The texts of squares are read as the squares.
pub proof fn lemma_words_round_trip(h: Seq<int>, words: Seq<Seq<char>>, n: int)
    requires
        0 <= n <= h.len(),
        words.len() == h.len(),
        forall|i: int| 0 <= i < h.len() ==> 1 <= #[trigger] h[i] <= 48,
        forall|i: int| 0 <= i < h.len() ==> #[trigger] words[i] == text_of_square(h[i]),
    ensures
        squares_of_words(words, n) == Ok::<Seq<int>, ParseError>(h.subrange(0, n)),
    decreases n,
{
    if n > 0 {
        lemma_words_round_trip(h, words, n - 1);
        lemma_square_round_trip(h[n - 1]);
        assert(words[n - 1] == text_of_square(h[n - 1]));
        assert(h.subrange(0, n - 1).push(h[n - 1]) =~= h.subrange(0, n));
    } else {
        assert(h.subrange(0, 0) =~= Seq::<int>::empty());
    }
}

/// The text of a record is read as the record.
pub proof fn lemma_history_round_trip(h: Seq<int>)
    requires
        h.len() <= 24,
        forall|i: int| 0 <= i < h.len() ==> 1 <= #[trigger] h[i] <= 48,
    ensures
        history_of_text(text_of_history(h, h.len() as int)) == Ok::<Seq<int>, ParseError>(h),
{
    let n = h.len() as int;
    let s = text_of_history(h, n);
    let sep = Separator::Whitespace;
    if n == 0 {
        assert(split_on(s, sep) =~= seq![Seq::<char>::empty()]);
        let pieces = split_on(s, sep);
        assert(filled(pieces, 1) =~= Seq::<Seq<char>>::empty()) by {
            assert(filled(pieces, 0) =~= Seq::<Seq<char>>::empty());
        }
        assert(h =~= Seq::<int>::empty());
    } else {
        lemma_history_split(h, n);
        let pieces = split_on(s, sep);
        assert forall|i: int| 0 <= i < n implies (#[trigger] pieces[i]).len() > 0 by {
            lemma_square_round_trip(h[i]);
        }
        lemma_filled_all(pieces, n);
        assert(pieces.subrange(0, n) =~= pieces);
        lemma_words_round_trip(h, pieces, n);
        assert(h.subrange(0, n) =~= h);
    }
}

/// The number from `lo` to `hi` that the text writes, or what is wrong with the text.
pub fn parse_small(s: &Vec<char>, lo: u8, hi: u8) -> (res: Result<u8, ParseError>)
    ensures
        res matches Ok(v) ==> small_of_text(s@, lo as int, hi as int) == Ok::<int, ParseError>(
            v as int,
        ),
        res matches Err(e) ==> small_of_text(s@, lo as int, hi as int) == Err::<int, ParseError>(e),
{
    match parse_unsigned(s, 255) {
        None => Err(ParseError::InvalidNumber),
        Some(v) => {
            if lo as u64 <= v && v <= hi as u64 {
                Ok(v as u8)
            } else {
                Err(ParseError::OutOfRange)
            }
        },
    }
}

/// The square that the text writes, or what is wrong with the text.
pub fn parse_square(s: &Vec<char>) -> (res: Result<Square, ParseError>)
    ensures
        res matches Ok(sq) ==> sq.wf() && square_of_text(s@) == Ok::<int, ParseError>(sq.value()),
        res matches Err(e) ==> square_of_text(s@) == Err::<int, ParseError>(e),
{
    let fields = split_chars(s, Separator::Comma);
    proof {
        assert(views(fields@).len() == fields.len());
    }
    if fields.len() != 2 {
        return Err(ParseError::FieldCount);
    }
    proof {
        assert(views(fields@)[0] == fields[0]@);
        assert(views(fields@)[1] == fields[1]@);
    }
    match parse_small(&fields[0], 1, 8) {
        Err(e) => Err(e),
        Ok(c) => match parse_small(&fields[1], 1, 6) {
            Err(e) => Err(e),
            Ok(r) => {
                let col = Col::from_inner(c).unwrap();
                let row = Row::from_inner(r).unwrap();
                Ok(Square::new(col, row))
            },
        },
    }
}

/// The text of the square.
pub fn format_square(sq: Square) -> (res: Vec<char>)
    ensures
        res@ == text_of_square(sq.value()),
{
    proof {
        use_type_invariant(&sq);
        sq.lemma_cell();
    }
    let mut res = format_unsigned(sq.col().to_inner() as u64);
    res.push(',');
    let mut row = format_unsigned(sq.row().to_inner() as u64);
    res.append(&mut row);
    res
}

impl Col {
    /// The column that the text writes, or what is wrong with the text.
    pub fn parse(s: &str) -> (res: Result<Col, ParseError>)
        ensures
            res matches Ok(col) ==> col.wf() && small_of_text(s@, 1, 8) == Ok::<int, ParseError>(
                col.value(),
            ),
            res matches Err(e) ==> small_of_text(s@, 1, 8) == Err::<int, ParseError>(e),
    {
        let chars = to_chars(s);
        match parse_small(&chars, 1, 8) {
            Err(e) => Err(e),
            Ok(v) => Ok(Col::from_inner(v).unwrap()),
        }
    }

    /// The text of the column: its number.
    pub fn to_string(&self) -> (res: String)
        ensures
            res@ == decimal_text(self.value()),
    {
        let chars = format_unsigned(self.to_inner() as u64);
        from_chars(&chars)
    }
}

impl Row {
    /// The row that the text writes, or what is wrong with the text.
    pub fn parse(s: &str) -> (res: Result<Row, ParseError>)
        ensures
            res matches Ok(row) ==> row.wf() && small_of_text(s@, 1, 6) == Ok::<int, ParseError>(
                row.value(),
            ),
            res matches Err(e) ==> small_of_text(s@, 1, 6) == Err::<int, ParseError>(e),
    {
        let chars = to_chars(s);
        match parse_small(&chars, 1, 6) {
            Err(e) => Err(e),
            Ok(v) => Ok(Row::from_inner(v).unwrap()),
        }
    }

    /// The text of the row: its number.
    pub fn to_string(&self) -> (res: String)
        ensures
            res@ == decimal_text(self.value()),
    {
        let chars = format_unsigned(self.to_inner() as u64);
        from_chars(&chars)
    }
}

impl Square {
    /// The square that the text writes, or what is wrong with the text.
    pub fn parse(s: &str) -> (res: Result<Square, ParseError>)
        ensures
            res matches Ok(sq) ==> sq.wf() && square_of_text(s@) == Ok::<int, ParseError>(sq.value()),
            res matches Err(e) ==> square_of_text(s@) == Err::<int, ParseError>(e),
    {
        let chars = to_chars(s);
        parse_square(&chars)
    }

    /// The text of the square: the number of its column, a comma and the number of its
    /// row.
    pub fn to_string(&self) -> (res: String)
        ensures
            res@ == text_of_square(self.value()),
    {
        let chars = format_square(*self);
        from_chars(&chars)
    }
}

impl GameEntropy {
    /// The entropy that the text writes, or what is wrong with the text.
    pub fn parse(s: &str) -> (res: Result<GameEntropy, ParseError>)
        ensures
            res matches Ok(e) ==> e.wf() && small_of_text(s@, 0, 4) == Ok::<int, ParseError>(
                e.value(),
            ),
            res matches Err(e) ==> small_of_text(s@, 0, 4) == Err::<int, ParseError>(e),
    {
        let chars = to_chars(s);
        match parse_small(&chars, 0, 4) {
            Err(e) => Err(e),
            Ok(v) => Ok(GameEntropy::from_inner(v).unwrap()),
        }
    }

    /// The text of the entropy: its value.
    pub fn to_string(&self) -> (res: String)
        ensures
            res@ == decimal_text(self.value()),
    {
        let chars = format_unsigned(self.to_inner() as u64);
        from_chars(&chars)
    }
}

impl ActionHistory {
    /// The record that the text writes, or what is wrong with the text.
    pub fn parse(s: &str) -> (res: Result<ActionHistory, ParseError>)
        ensures
            res matches Ok(h) ==> h.wf() && history_of_text(s@) == Ok::<Seq<int>, ParseError>(h@),
            res matches Err(e) ==> history_of_text(s@) == Err::<Seq<int>, ParseError>(e),
    {
        let chars = to_chars(s);
        let pieces = split_chars(&chars, Separator::Whitespace);
        let ghost ps = views(pieces@);
        let mut words: Vec<Vec<char>> = Vec::new();
        let mut i: usize = 0;
        while i < pieces.len()
            invariant
                0 <= i <= pieces.len(),
                ps == views(pieces@),
                views(words@) == filled(ps, i as int),
            decreases pieces.len() - i,
        {
            proof {
                assert(ps[i as int] == pieces[i as int]@);
            }
            if pieces[i].len() > 0 {
                let word: Vec<char> = pieces[i].clone();
                let ghost done = views(words@);
                words.push(word);
                proof {
                    assert(views(words@) =~= done.push(word@));
                }
            }
            i = i + 1;
        }
        let ghost ws = views(words@);
        proof {
            assert(ws.len() == words.len());
        }
        if words.len() > 24 {
            return Err(ParseError::TooManyMoves);
        }
        let mut res = ActionHistory::new();
        let mut k: usize = 0;
        while k < words.len()
            invariant
                0 <= k <= words.len() <= 24,
                ws == views(words@),
                ws == words_of(s@),
                res.wf(),
                squares_of_words(ws, k as int) == Ok::<Seq<int>, ParseError>(res@),
                res@.len() == k,
            decreases words.len() - k,
        {
            proof {
                assert(ws[k as int] == words[k as int]@);
            }
            match parse_square(&words[k]) {
                Err(e) => {
                    proof {
                        assert(squares_of_words(ws, k + 1) == Err::<Seq<int>, ParseError>(e));
                        lemma_words_error_stays(ws, k + 1, ws.len() as int);
                    }
                    return Err(e);
                },
                Ok(sq) => {
                    res.push(sq);
                },
            }
            k = k + 1;
        }
        Ok(res)
    }

    /// The text of the record: its squares with a blank between two of them.
    pub fn to_string(&self) -> (res: String)
        ensures
            res@ == text_of_history(self@, self@.len() as int),
    {
        let sqs = self.as_slice();
        let mut chars: Vec<char> = Vec::new();
        let mut i: usize = 0;
        while i < sqs.len()
            invariant
                0 <= i <= sqs.len(),
                sqs.len() == self@.len(),
                forall|k: int| 0 <= k < sqs.len() ==> (#[trigger] sqs[k]).value() == self@[k],
                chars@ == text_of_history(self@, i as int),
            decreases sqs.len() - i,
        {
            if i != 0 {
                chars.push(' ');
            }
            let mut text = format_square(sqs[i]);
            chars.append(&mut text);
            proof {
                if i == 0 {
                    assert(chars@ =~= text_of_square(self@[0]));
                }
            }
            i = i + 1;
        }
        from_chars(&chars)
    }
}

/// Once something is wrong with a word, it stays the first thing that is wrong.
pub proof fn lemma_words_error_stays(words: Seq<Seq<char>>, n: int, m: int)
    requires
        0 <= n <= m,
        squares_of_words(words, n) is Err,
    ensures
        squares_of_words(words, m) == squares_of_words(words, n),
    decreases m,
{
    if m > n {
        lemma_words_error_stays(words, n, m - 1);
    }
}

impl std::str::FromStr for Col {
    type Err = ParseError;

    /// The column that the text writes, or what is wrong with the text.
    fn from_str(s: &str) -> (res: Result<Col, ParseError>)
        ensures
            res matches Ok(v) ==> v.wf() && small_of_text(s@, 1, 8) == Ok::<int, ParseError>(
                v.value(),
            ),
            res matches Err(e) ==> small_of_text(s@, 1, 8) == Err::<int, ParseError>(e),
    {
        Col::parse(s)
    }
}

impl std::str::FromStr for Row {
    type Err = ParseError;

    /// The row that the text writes, or what is wrong with the text.
    fn from_str(s: &str) -> (res: Result<Row, ParseError>)
        ensures
            res matches Ok(v) ==> v.wf() && small_of_text(s@, 1, 6) == Ok::<int, ParseError>(
                v.value(),
            ),
            res matches Err(e) ==> small_of_text(s@, 1, 6) == Err::<int, ParseError>(e),
    {
        Row::parse(s)
    }
}

impl std::str::FromStr for Square {
    type Err = ParseError;

    /// The square that the text writes, or what is wrong with the text.
    fn from_str(s: &str) -> (res: Result<Square, ParseError>)
        ensures
            res matches Ok(sq) ==> sq.wf() && square_of_text(s@) == Ok::<int, ParseError>(sq.value()),
            res matches Err(e) ==> square_of_text(s@) == Err::<int, ParseError>(e),
    {
        Square::parse(s)
    }
}

impl std::str::FromStr for GameEntropy {
    type Err = ParseError;

    /// The entropy that the text writes, or what is wrong with the text.
    fn from_str(s: &str) -> (res: Result<GameEntropy, ParseError>)
        ensures
            res matches Ok(v) ==> v.wf() && small_of_text(s@, 0, 4) == Ok::<int, ParseError>(
                v.value(),
            ),
            res matches Err(e) ==> small_of_text(s@, 0, 4) == Err::<int, ParseError>(e),
    {
        GameEntropy::parse(s)
    }
}

impl std::str::FromStr for ActionHistory {
    type Err = ParseError;

    /// The record that the text writes, or what is wrong with the text.
    fn from_str(s: &str) -> (res: Result<ActionHistory, ParseError>)
        ensures
            res matches Ok(h) ==> h.wf() && history_of_text(s@) == Ok::<Seq<int>, ParseError>(h@),
            res matches Err(e) ==> history_of_text(s@) == Err::<Seq<int>, ParseError>(e),
    {
        ActionHistory::parse(s)
    }
}

} // verus!
