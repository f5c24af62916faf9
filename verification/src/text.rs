//! Text: splitting into pieces, and decimal numbers.

use vstd::prelude::*;

verus! {

/// Why a text is not the text of a value.
#[derive(Clone, Copy, Debug, PartialEq, Eq, Structural)]
pub enum ParseError {
    /// The text of a board or a mask does not have six lines.
    LineCount,
    /// A line of a board or a mask does not have eight characters.
    LineLength,
    /// A character of a board or a mask stands for no cell.
    InvalidChar,
    /// An empty column of a board stands to the left of a column that holds a piece.
    NotLeftPacked,
    /// The text does not have as many fields as the value.
    FieldCount,
    /// A field is not a number.
    InvalidNumber,
    /// A number is not one that the value can hold.
    OutOfRange,
    /// The text of a record has more than 24 moves.
    TooManyMoves,
}

/// What separates the pieces of a text.
#[derive(Clone, Copy, Debug, PartialEq, Eq, Structural)]
pub enum Separator {
    /// A comma.
    Comma,
    /// A line feed.
    Newline,
    /// A blank, a tab, a line feed, a form feed or a carriage return.
    Whitespace,
}

impl Separator {
    /// Whether the character separates.
    pub open spec fn matches(self, ch: char) -> bool {
        match self {
            Separator::Comma => ch == ',',
            Separator::Newline => ch == '\n',
            Separator::Whitespace => ch == ' ' || ch == '\t' || ch == '\n' || ch == '\x0c' || ch
                == '\r',
        }
    }

    /// Whether the character separates.
    pub fn is_match(self, ch: char) -> (res: bool)
        ensures
            res == self.matches(ch),
    {
        match self {
            Separator::Comma => ch == ',',
            Separator::Newline => ch == '\n',
            Separator::Whitespace => ch == ' ' || ch == '\t' || ch == '\n' || ch == '\x0c' || ch
                == '\r',
        }
    }
}

/// The pieces of the text between the separators, in their order. There is one piece
/// more than there are separators, and a piece may be empty.
pub open spec fn split_on(s: Seq<char>, sep: Separator) -> Seq<Seq<char>>
    decreases s.len(),
{
    if s.len() == 0 {
        seq![Seq::<char>::empty()]
    } else {
        let front = split_on(s.drop_last(), sep);
        if sep.matches(s.last()) {
            front.push(Seq::<char>::empty())
        } else {
            front.drop_last().push(front.last().push(s.last()))
        }
    }
}

/// The texts that the vectors hold.
pub open spec fn views(v: Seq<Vec<char>>) -> Seq<Seq<char>> {
    v.map_values(|x: Vec<char>| x@)
}

/// There is always a piece.
pub proof fn lemma_split_nonempty(s: Seq<char>, sep: Separator)
    ensures
        split_on(s, sep).len() >= 1,
    decreases s.len(),
{
    if s.len() > 0 {
        lemma_split_nonempty(s.drop_last(), sep);
    }
}

/// A text with no separator behind another text makes the last piece longer.
pub proof fn lemma_split_append(s: Seq<char>, t: Seq<char>, sep: Separator)
    requires
        forall|i: int| 0 <= i < t.len() ==> !sep.matches(#[trigger] t[i]),
    ensures
        split_on(s + t, sep) == split_on(s, sep).drop_last().push(split_on(s, sep).last() + t),
    decreases t.len(),
{
    lemma_split_nonempty(s, sep);
    let p = split_on(s, sep);
    if t.len() == 0 {
        assert(s + t =~= s);
        assert(p.last() + t =~= p.last());
        assert(p.drop_last().push(p.last()) =~= p);
    } else {
        let t0 = t.drop_last();
        lemma_split_append(s, t0, sep);
        assert((s + t).drop_last() =~= s + t0);
        assert((s + t).last() == t.last());
        let q = split_on(s + t0, sep);
        assert(q.last() == p.last() + t0);
        assert(q.drop_last() =~= p.drop_last());
        assert((p.last() + t0).push(t.last()) =~= p.last() + t);
    }
}

/// A separator behind a text starts a new, empty piece.
pub proof fn lemma_split_sep(s: Seq<char>, ch: char, sep: Separator)
    requires
        sep.matches(ch),
    ensures
        split_on(s.push(ch), sep) == split_on(s, sep).push(Seq::<char>::empty()),
{
    assert(s.push(ch).drop_last() =~= s);
}

/// The characters of the text.
pub fn to_chars(s: &str) -> (res: Vec<char>)
    ensures
        res@ == s@,
{
    let n: usize = s.unicode_len();
    let mut res: Vec<char> = Vec::new();
    let mut i: usize = 0;
    while i < n
        invariant
            0 <= i <= n,
            n == s@.len(),
            res@ == s@.subrange(0, i as int),
        decreases n - i,
    {
        res.push(s.get_char(i));
        proof {
            assert(s@.subrange(0, i as int).push(s@[i as int]) =~= s@.subrange(0, i + 1));
        }
        i = i + 1;
    }
    proof {
        assert(s@.subrange(0, n as int) =~= s@);
    }
    res
}

/// `String::from_iter`: the text made of the characters.
#[verifier::external_body]
pub(crate) fn from_chars(chars: &Vec<char>) -> (res: String)
    ensures
        res@ == chars@,
{
    String::from_iter(chars.iter())
}

/// The pieces of the text between the separators.
pub fn split_chars(s: &Vec<char>, sep: Separator) -> (res: Vec<Vec<char>>)
    ensures
        views(res@) == split_on(s@, sep),
{
    let mut res: Vec<Vec<char>> = Vec::new();
    let mut cur: Vec<char> = Vec::new();
    let mut i: usize = 0;
    proof {
        assert(s@.subrange(0, 0) =~= Seq::<char>::empty());
        assert(views(res@).push(cur@) =~= seq![Seq::<char>::empty()]);
    }
    while i < s.len()
        invariant
            0 <= i <= s.len(),
            views(res@).push(cur@) == split_on(s@.subrange(0, i as int), sep),
        decreases s.len() - i,
    {
        let ch = s[i];
        let ghost before = s@.subrange(0, i as int);
        let ghost now = s@.subrange(0, i + 1);
        proof {
            assert(now.drop_last() =~= before);
            assert(now.last() == ch);
        }
        if sep.is_match(ch) {
            let ghost done = views(res@);
            let ghost piece = cur@;
            res.push(cur);
            cur = Vec::new();
            proof {
                assert(views(res@) =~= done.push(piece));
            }
        } else {
            let ghost piece = cur@;
            cur.push(ch);
            proof {
                let front = views(res@).push(piece);
                assert(front.drop_last() =~= views(res@));
            }
        }
        i = i + 1;
    }
    let ghost done = views(res@);
    let ghost piece = cur@;
    res.push(cur);
    proof {
        assert(s@.subrange(0, s.len() as int) =~= s@);
        assert(views(res@) =~= done.push(piece));
    }
    res
}

/// The value of the decimal digit, if the character is one.
pub open spec fn digit_of(ch: char) -> Option<int> {
    if '0' <= ch <= '9' {
        Some(ch as int - '0' as int)
    } else {
        None
    }
}

/// The number that the decimal digits write, if the text is made of one or more
/// decimal digits.
pub open spec fn decimal_value(s: Seq<char>) -> Option<int>
    decreases s.len(),
{
    if s.len() == 0 {
        None
    } else if s.len() == 1 {
        digit_of(s[0])
    } else {
        match (decimal_value(s.drop_last()), digit_of(s.last())) {
            (Some(a), Some(d)) => Some(10 * a + d),
            _ => None,
        }
    }
}

/// The number that the text writes, if it writes one that is at most `max`: an
/// optional plus sign and one or more decimal digits.
pub open spec fn unsigned_value(s: Seq<char>, max: int) -> Option<int> {
    let body = if s.len() > 0 && s[0] == '+' {
        s.drop_first()
    } else {
        s
    };
    match decimal_value(body) {
        Some(v) => if v <= max {
            Some(v)
        } else {
            None
        },
        None => None,
    }
}

/// The decimal digit of a value from 0 to 9.
pub open spec fn digit_char(d: int) -> char {
    ('0' as int + d) as char
}

/// The decimal digits that write the number.
pub open spec fn decimal_text(v: int) -> Seq<char>
    decreases v,
{
    if v < 10 {
        seq![digit_char(v)]
    } else {
        decimal_text(v / 10).push(digit_char(v % 10))
    }
}

/// The digits that write a number are read as that number.
pub proof fn lemma_decimal_round_trip(v: int)
    requires
        0 <= v,
    ensures
        decimal_value(decimal_text(v)) == Some(v),
        decimal_text(v).len() >= 1,
        forall|i: int| 0 <= i < decimal_text(v).len() ==> '0' <= #[trigger] decimal_text(v)[i] <= '9',
    decreases v,
{
    if v >= 10 {
        lemma_decimal_round_trip(v / 10);
        let front = decimal_text(v / 10);
        let s = decimal_text(v);
        assert(s.drop_last() =~= front);
        assert(s.last() == digit_char(v % 10));
        assert(digit_of(digit_char(v % 10)) == Some(v % 10));
    } else {
        assert(digit_of(digit_char(v)) == Some(v));
    }
}

/// A number written without a sign is read as it is written, if it is not too large.
pub proof fn lemma_unsigned_round_trip(v: int, max: int)
    requires
        0 <= v <= max,
    ensures
        unsigned_value(decimal_text(v), max) == Some(v),
{
    lemma_decimal_round_trip(v);
    assert(decimal_text(v)[0] != '+');
}

/// Digits behind digits make the number larger or leave it as it is.
proof fn lemma_decimal_grows(s: Seq<char>, n: int)
    requires
        0 < n <= s.len(),
        decimal_value(s) is Some,
    ensures
        decimal_value(s.subrange(0, n)) is Some,
        0 <= decimal_value(s.subrange(0, n))->0 <= decimal_value(s)->0,
    decreases s.len() - n,
{
    if n == s.len() {
        assert(s.subrange(0, n) =~= s);
        lemma_decimal_nonneg(s);
    } else {
        assert(s.len() >= 2);
        assert(s.drop_last().subrange(0, n) =~= s.subrange(0, n));
        lemma_decimal_grows(s.drop_last(), n);
    }
}

/// The number that digits write is not negative.
proof fn lemma_decimal_nonneg(s: Seq<char>)
    requires
        decimal_value(s) is Some,
    ensures
        0 <= decimal_value(s)->0,
    decreases s.len(),
{
    if s.len() >= 2 {
        lemma_decimal_nonneg(s.drop_last());
    }
}

/// The value of the decimal digit, if the character is one.
pub fn digit_value(ch: char) -> (res: Option<u8>)
    ensures
        res is Some <==> digit_of(ch) is Some,
        res is Some ==> res->0 == digit_of(ch)->0 && res->0 <= 9,
{
    if '0' <= ch && ch <= '9' {
        Some(((ch as u32) - ('0' as u32)) as u8)
    } else {
        None
    }
}

/// The number that the text writes, if it writes one that is at most `max`.
pub fn parse_unsigned(s: &Vec<char>, max: u64) -> (res: Option<u64>)
    ensures
        res is Some <==> unsigned_value(s@, max as int) is Some,
        res is Some ==> res->0 == unsigned_value(s@, max as int)->0,
{
    let start: usize = if s.len() > 0 && s[0] == '+' {
        1
    } else {
        0
    };
    let ghost body = if start == 1 {
        s@.drop_first()
    } else {
        s@
    };
    if start >= s.len() {
        proof {
            assert(body.len() == 0);
        }
        return None;
    }
    let mut acc: u64 = 0;
    let mut i: usize = start;
    proof {
        assert(body =~= s@.subrange(start as int, s.len() as int));
    }
    while i < s.len()
        invariant
            start <= i <= s.len(),
            start < s.len(),
            body == s@.subrange(start as int, s.len() as int),
            body == if s@.len() > 0 && s@[0] == '+' {
                s@.drop_first()
            } else {
                s@
            },
            acc <= max,
            i == start ==> acc == 0,
            i > start ==> decimal_value(body.subrange(0, i - start)) == Some(acc as int),
        decreases s.len() - i,
    {
        let ghost prefix = body.subrange(0, i - start);
        let ghost next = body.subrange(0, i + 1 - start);
        proof {
            assert(next.drop_last() =~= prefix);
            assert(next.last() == s@[i as int]);
        }
        match digit_value(s[i]) {
            None => {
                proof {
                    assert(decimal_value(next) is None);
                    if decimal_value(body) is Some {
                        lemma_decimal_grows(body, i + 1 - start);
                    }
                }
                return None;
            },
            Some(d) => {
                proof {
                    assert(digit_of(next.last()) == Some(d as int));
                    if i == start {
                        assert(next.len() == 1);
                        assert(next[0] == next.last());
                    } else {
                        assert(next.len() >= 2);
                        assert(decimal_value(next.drop_last()) == Some(acc as int));
                    }
                    assert(decimal_value(next) == Some(10 * acc + d));
                    if decimal_value(body) is Some {
                        lemma_decimal_grows(body, i + 1 - start);
                    }
                }
                if (d as u64) > max || acc > (max - (d as u64)) / 10 {
                    return None;
                }
                let value: u64 = 10 * acc + (d as u64);
                acc = value;
            },
        }
        i = i + 1;
    }
    proof {
        assert(body.subrange(0, s.len() - start) =~= body);
    }
    Some(acc)
}

/// The decimal digits that write the number.
pub fn format_unsigned(v: u64) -> (res: Vec<char>)
    ensures
        res@ == decimal_text(v as int),
    decreases v,
{
    if v < 10 {
        let mut res: Vec<char> = Vec::new();
        res.push(digit_to_char((v % 10) as u8));
        res
    } else {
        let mut res = format_unsigned(v / 10);
        res.push(digit_to_char((v % 10) as u8));
        res
    }
}

/// The decimal digit of a value from 0 to 9.
pub fn digit_to_char(d: u8) -> (res: char)
    requires
        d <= 9,
    ensures
        res == digit_char(d as int),
{
    if d == 0 {
        '0'
    } else if d == 1 {
        '1'
    } else if d == 2 {
        '2'
    } else if d == 3 {
        '3'
    } else if d == 4 {
        '4'
    } else if d == 5 {
        '5'
    } else if d == 6 {
        '6'
    } else if d == 7 {
        '7'
    } else if d == 8 {
        '8'
    } else {
        '9'
    }
}

} // verus!
