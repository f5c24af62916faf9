//! The text of the parameters of a deal: the state of the generator and the NMI
//! counter, each as `0x` and hexadecimal digits, the timing and the entropy, each in
//! decimal digits, with commas between them.

use vstd::prelude::*;
use crate::rng::{GameEntropy, RandomBoardParam};
use crate::text::{
    decimal_text, format_unsigned, from_chars, lemma_decimal_round_trip, lemma_split_append,
    lemma_split_sep, lemma_unsigned_round_trip, parse_unsigned, split_chars, split_on, to_chars,
    unsigned_value, views, ParseError, Separator,
};
use crate::value_text::lemma_decimal_plain;

verus! {

/// What `parse_int::parse::<u16>` reads from the text: the number, or nothing where it
/// reads none.
pub uninterp spec fn prefixed_u16(s: Seq<char>) -> Option<u16>;

/// The value of the hexadecimal digit, if the character is a decimal digit or a
/// capital from `A` to `F`.
pub open spec fn hex_digit_of(ch: char) -> Option<int> {
    if '0' <= ch <= '9' {
        Some(ch as int - '0' as int)
    } else if 'A' <= ch <= 'F' {
        Some(ch as int - 'A' as int + 10)
    } else {
        None
    }
}

/// The number that the hexadecimal digits write, if the text is made of one or more
/// of them.
pub open spec fn hex_value(s: Seq<char>) -> Option<int>
    decreases s.len(),
{
    if s.len() == 0 {
        None
    } else if s.len() == 1 {
        hex_digit_of(s[0])
    } else {
        match (hex_value(s.drop_last()), hex_digit_of(s.last())) {
            (Some(a), Some(d)) => Some(16 * a + d),
            _ => None,
        }
    }
}

/// The number that the text writes, if the text is `0x` and one to four hexadecimal
/// digits.
pub open spec fn hex_literal_value(s: Seq<char>) -> Option<int> {
    if 3 <= s.len() <= 6 && s[0] == '0' && s[1] == 'x' {
        hex_value(s.subrange(2, s.len() as int))
    } else {
        None
    }
}

/// `parse_int::parse::<u16>`: reads a number below 65536 from a text without a minus
/// sign. From `0x` and one to four hexadecimal digits it reads the number that the
/// digits write.
#[verifier::external_body]
fn read_prefixed(s: &str) -> (res: Option<u16>)
    requires
        !s@.contains('-'),
    ensures
        res == prefixed_u16(s@),
        hex_literal_value(s@) is Some ==> res == Some(hex_literal_value(s@)->0 as u16),
{
    parse_int::parse::<u16>(s).ok()
}

/// The number that a field with a prefix writes: a text of `0x` and one to four
/// hexadecimal digits writes the number of the digits; of another text without a
/// minus sign the number is what is read from it with the prefixes `0x`, `0o` and
/// `0b`; a text with a minus sign writes none.
pub open spec fn number_of_field(f: Seq<char>) -> Option<int> {
    match hex_literal_value(f) {
        Some(v) => Some(v),
        None => if f.contains('-') {
            None
        } else {
            match prefixed_u16(f) {
                Some(v) => Some(v as int),
                None => None,
            }
        },
    }
}

/// The parameters that the four fields write, or what is wrong with the first field
/// with which something is wrong. `state` and `counter` are the numbers that the
/// first two fields write.
pub open spec fn param_of_fields(
    state: Option<int>,
    counter: Option<int>,
    timing: Seq<char>,
    entropy: Seq<char>,
) -> Result<RandomBoardParam, ParseError> {
    match state {
        None => Err(ParseError::InvalidNumber),
        Some(st) => match counter {
            None => Err(ParseError::InvalidNumber),
            Some(c) => if c > 255 {
                Err(ParseError::InvalidNumber)
            } else {
                match unsigned_value(timing, usize::MAX as int) {
                    None => Err(ParseError::InvalidNumber),
                    Some(t) => match unsigned_value(entropy, 255) {
                        None => Err(ParseError::InvalidNumber),
                        Some(e) => if e > 4 {
                            Err(ParseError::OutOfRange)
                        } else {
                            Ok(
                                RandomBoardParam {
                                    rng_state: st as u16,
                                    nmi_counter: c as u8,
                                    nmi_timing: t as usize,
                                    entropy: GameEntropy::of(e),
                                },
                            )
                        },
                    },
                }
            },
        },
    }
}

/// The parameters that the text writes, or what is wrong with the text.
pub open spec fn param_of_text(s: Seq<char>) -> Result<RandomBoardParam, ParseError> {
    let fields = split_on(s, Separator::Comma);
    if fields.len() != 4 {
        Err(ParseError::FieldCount)
    } else {
        param_of_fields(number_of_field(fields[0]), number_of_field(fields[1]), fields[2], fields[3])
    }
}

/// The hexadecimal digit of a value from 0 to 15.
pub open spec fn hex_char(d: int) -> char {
    if d < 10 {
        ('0' as int + d) as char
    } else {
        ('A' as int + d - 10) as char
    }
}

/// The `n` hexadecimal digits that write the number.
pub open spec fn hex_digits(v: int, n: int) -> Seq<char>
    decreases n,
{
    if n <= 0 {
        Seq::empty()
    } else {
        hex_digits(v / 16, n - 1).push(hex_char(v % 16))
    }
}

/// The text of the number: `0x` and `n` hexadecimal digits.
pub open spec fn hex_text(v: int, n: int) -> Seq<char> {
    seq!['0', 'x'] + hex_digits(v, n)
}

/// The text of the parameters.
pub open spec fn text_of_param(p: RandomBoardParam) -> Seq<char> {
    hex_text(p.rng_state as int, 4).push(',') + hex_text(p.nmi_counter as int, 2).push(',')
        + decimal_text(p.nmi_timing as int).push(',') + decimal_text(p.entropy.value())
}

/// The power of 16.
pub open spec fn pow16(n: int) -> int
    decreases n,
{
    if n <= 0 {
        1
    } else {
        16 * pow16(n - 1)
    }
}

/// The hexadecimal digits that write a number are read as that number, and none of
/// them is a comma or a minus sign.
pub proof fn lemma_hex_digits(v: int, n: int)
    requires
        1 <= n,
        0 <= v < pow16(n),
    ensures
        hex_digits(v, n).len() == n,
        hex_value(hex_digits(v, n)) == Some(v),
        forall|i: int|
            0 <= i < n ==> #[trigger] hex_digits(v, n)[i] != ',' && hex_digits(v, n)[i] != '-',
    decreases n,
{
    let s = hex_digits(v, n);
    let d = v % 16;
    assert(hex_digit_of(hex_char(d)) == Some(d));
    assert(hex_char(d) != ',' && hex_char(d) != '-');
    if n == 1 {
        assert(pow16(1) == 16) by {
            reveal_with_fuel(pow16, 2);
        }
        assert(hex_digits(v / 16, 0) =~= Seq::<char>::empty());
        assert(s.len() == 1);
        assert(s[0] == hex_char(d));
    } else {
        lemma_hex_digits(v / 16, n - 1);
        assert(s.drop_last() =~= hex_digits(v / 16, n - 1));
        assert(s.last() == hex_char(d));
        assert forall|i: int| 0 <= i < n implies #[trigger] s[i] != ',' && s[i] != '-' by {
            if i < n - 1 {
                assert(s[i] == hex_digits(v / 16, n - 1)[i]);
            }
        }
    }
}

/// The text of a number in hexadecimal digits is read as that number, and it holds
/// no comma and no minus sign.
pub proof fn lemma_hex_text(v: int, n: int)
    requires
        1 <= n <= 4,
        0 <= v < pow16(n),
    ensures
        hex_literal_value(hex_text(v, n)) == Some(v),
        number_of_field(hex_text(v, n)) == Some(v),
        forall|i: int|
            0 <= i < hex_text(v, n).len() ==> !Separator::Comma.matches(#[trigger] hex_text(v, n)[i]),
{
    lemma_hex_digits(v, n);
    let t = hex_text(v, n);
    assert(t.subrange(2, t.len() as int) =~= hex_digits(v, n));
    assert forall|i: int| 0 <= i < t.len() implies !Separator::Comma.matches(#[trigger] t[i]) by {
        if i >= 2 {
            assert(t[i] == hex_digits(v, n)[i - 2]);
        }
    }
}

/// The text of parameters is read as the parameters.
pub proof fn lemma_param_round_trip(p: RandomBoardParam)
    requires
        p.entropy.wf(),
    ensures
        param_of_text(text_of_param(p)) == Ok::<RandomBoardParam, ParseError>(p),
{
    let sep = Separator::Comma;
    let a = hex_text(p.rng_state as int, 4);
    let b = hex_text(p.nmi_counter as int, 2);
    let c = decimal_text(p.nmi_timing as int);
    let d = decimal_text(p.entropy.value());
    GameEntropy::lemma_value(p.entropy);
    assert(pow16(4) == 65536 && pow16(2) == 256) by {
        reveal_with_fuel(pow16, 5);
    }
    lemma_hex_text(p.rng_state as int, 4);
    lemma_hex_text(p.nmi_counter as int, 2);
    lemma_decimal_plain(p.nmi_timing as int);
    lemma_decimal_plain(p.entropy.value());
    let e = Seq::<char>::empty();
    assert(split_on(e, sep) =~= seq![e]);
    lemma_split_append(e, a, sep);
    assert(e + a =~= a);
    assert(split_on(a, sep) =~= seq![a]);
    lemma_split_sep(a, ',', sep);
    let s1 = a.push(',');
    lemma_split_append(s1, b, sep);
    assert(e + b =~= b);
    assert(split_on(s1 + b, sep) =~= seq![a, b]);
    lemma_split_sep(s1 + b, ',', sep);
    let s2 = (s1 + b).push(',');
    lemma_split_append(s2, c, sep);
    assert(e + c =~= c);
    assert(split_on(s2 + c, sep) =~= seq![a, b, c]);
    lemma_split_sep(s2 + c, ',', sep);
    let s3 = (s2 + c).push(',');
    lemma_split_append(s3, d, sep);
    assert(e + d =~= d);
    assert(split_on(s3 + d, sep) =~= seq![a, b, c, d]);
    assert(text_of_param(p) =~= s3 + d);
    lemma_unsigned_round_trip(p.nmi_timing as int, usize::MAX as int);
    lemma_unsigned_round_trip(p.entropy.value(), 255);
    GameEntropy::lemma_of(p.entropy.value());
    let q = param_of_text(text_of_param(p))->Ok_0;
    assert(q.entropy == p.entropy);
}

/// The text of a number that is read as hexadecimal holds no minus sign.
proof fn lemma_hex_no_minus(s: Seq<char>)
    requires
        hex_value(s) is Some,
    ensures
        !s.contains('-'),
    decreases s.len(),
{
    if s.len() >= 2 {
        lemma_hex_no_minus(s.drop_last());
        assert forall|i: int| 0 <= i < s.len() implies s[i] != '-' by {
            if i < s.len() - 1 {
                assert(s.drop_last()[i] == s[i]);
                assert(s.drop_last().contains(s[i]));
            }
        }
    }
}

/// The number that hexadecimal digits write is below the power of 16 of their number.
proof fn lemma_hex_bound(s: Seq<char>)
    requires
        hex_value(s) is Some,
    ensures
        0 <= hex_value(s)->0 < pow16(s.len() as int),
    decreases s.len(),
{
    if s.len() >= 2 {
        lemma_hex_bound(s.drop_last());
    } else {
        reveal_with_fuel(pow16, 2);
    }
}

/// The number that a field with a prefix writes.
pub fn parse_field(f: &Vec<char>) -> (res: Option<u16>)
    ensures
        res is Some <==> number_of_field(f@) is Some,
        res is Some ==> res->0 == number_of_field(f@)->0,
{
    let mut i: usize = 0;
    while i < f.len()
        invariant
            0 <= i <= f.len(),
            forall|k: int| 0 <= k < i ==> f@[k] != '-',
        decreases f.len() - i,
    {
        if f[i] == '-' {
            proof {
                assert(f@.contains('-'));
                if hex_literal_value(f@) is Some {
                    let t = f@.subrange(2, f@.len() as int);
                    lemma_hex_no_minus(t);
                    assert(i >= 2);
                    assert(t[i - 2] == '-');
                    assert(t.contains('-'));
                }
            }
            return None;
        }
        i = i + 1;
    }
    let text = from_chars(f);
    proof {
        if hex_literal_value(f@) is Some {
            let t = f@.subrange(2, f@.len() as int);
            lemma_hex_bound(t);
            assert(pow16(t.len() as int) <= 65536) by {
                reveal_with_fuel(pow16, 5);
            }
        }
        assert forall|k: int| 0 <= k < f@.len() implies f@[k] != '-' by {}
    }
    read_prefixed(text.as_str())
}

/// The text of the number: `0x` and `n` hexadecimal digits.
pub fn format_hex(v: u16, n: usize) -> (res: Vec<char>)
    requires
        n <= 4,
    ensures
        res@ == hex_text(v as int, n as int),
{
    let mut res: Vec<char> = Vec::new();
    res.push('0');
    res.push('x');
    let mut k: usize = 0;
    while k < n
        invariant
            0 <= k <= n <= 4,
            res@ == seq!['0', 'x'] + hex_digits(shifted(v as int, n - k), k as int),
        decreases n - k,
    {
        let rest: u16 = shift_right(v, n - k - 1);
        let d: u8 = (rest % 16) as u8;
        res.push(hex_digit_char(d));
        proof {
            let x = shifted(v as int, n - k - 1);
            assert(shifted(v as int, n - k) == x / 16);
            assert(hex_digits(x, k + 1) == hex_digits(x / 16, k as int).push(hex_char(x % 16)));
            assert(res@ =~= seq!['0', 'x'] + hex_digits(x, k + 1));
        }
        k = k + 1;
    }
    res
}

/// The number without its last `n` hexadecimal digits.
pub open spec fn shifted(v: int, n: int) -> int
    decreases n,
{
    if n <= 0 {
        v
    } else {
        shifted(v, n - 1) / 16
    }
}

/// The number without its last `n` hexadecimal digits.
fn shift_right(v: u16, n: usize) -> (res: u16)
    requires
        n <= 4,
    ensures
        res == shifted(v as int, n as int),
{
    let mut res: u16 = v;
    let mut i: usize = 0;
    while i < n
        invariant
            0 <= i <= n,
            res == shifted(v as int, i as int),
        decreases n - i,
    {
        res = res / 16;
        i = i + 1;
    }
    res
}

/// The hexadecimal digit of a value from 0 to 15.
pub fn hex_digit_char(d: u8) -> (res: char)
    requires
        d <= 15,
    ensures
        res == hex_char(d as int),
{
    if d < 10 {
        crate::text::digit_to_char(d)
    } else if d == 10 {
        'A'
    } else if d == 11 {
        'B'
    } else if d == 12 {
        'C'
    } else if d == 13 {
        'D'
    } else if d == 14 {
        'E'
    } else {
        'F'
    }
}

impl RandomBoardParam {
    /// The parameters that the four fields write, or what is wrong with the first
    /// field with which something is wrong. `state` and `counter` are the numbers that
    /// the first two fields write.
    pub fn from_fields(
        state: Option<u16>,
        counter: Option<u16>,
        timing: &Vec<char>,
        entropy: &Vec<char>,
    ) -> (res: Result<RandomBoardParam, ParseError>)
        ensures
            res == param_of_fields(
                match state {
                    Some(v) => Some(v as int),
                    None => None,
                },
                match counter {
                    Some(v) => Some(v as int),
                    None => None,
                },
                timing@,
                entropy@,
            ),
            res matches Ok(p) ==> p.entropy.wf(),
    {
        let rng_state: u16 = match state {
            Some(v) => v,
            None => {
                return Err(ParseError::InvalidNumber);
            },
        };
        let nmi_counter: u8 = match counter {
            Some(v) => {
                if v > 255 {
                    return Err(ParseError::InvalidNumber);
                }
                v as u8
            },
            None => {
                return Err(ParseError::InvalidNumber);
            },
        };
        let nmi_timing: usize = match parse_unsigned(timing, usize::MAX as u64) {
            Some(v) => v as usize,
            None => {
                return Err(ParseError::InvalidNumber);
            },
        };
        let entropy: GameEntropy = match parse_unsigned(entropy, 255) {
            Some(v) => {
                if v > 4 {
                    return Err(ParseError::OutOfRange);
                }
                let e = GameEntropy::from_inner(v as u8).unwrap();
                proof {
                    GameEntropy::lemma_of(v as int);
                    GameEntropy::lemma_value(e);
                }
                e
            },
            None => {
                return Err(ParseError::InvalidNumber);
            },
        };
        Ok(RandomBoardParam { rng_state, nmi_counter, nmi_timing, entropy })
    }

    /// The parameters that the text writes, or what is wrong with the text.
    pub fn parse(s: &str) -> (res: Result<RandomBoardParam, ParseError>)
        ensures
            res == param_of_text(s@),
            res matches Ok(p) ==> p.entropy.wf(),
    {
        let chars = to_chars(s);
        let fields = split_chars(&chars, Separator::Comma);
        proof {
            assert(views(fields@).len() == fields.len());
        }
        if fields.len() != 4 {
            return Err(ParseError::FieldCount);
        }
        proof {
            assert(views(fields@)[0] == fields[0]@);
            assert(views(fields@)[1] == fields[1]@);
            assert(views(fields@)[2] == fields[2]@);
            assert(views(fields@)[3] == fields[3]@);
        }
        let state = parse_field(&fields[0]);
        let counter = parse_field(&fields[1]);
        RandomBoardParam::from_fields(state, counter, &fields[2], &fields[3])
    }

    /// The text of the parameters.
    pub fn to_string(&self) -> (res: String)
        ensures
            res@ == text_of_param(*self),
    {
        let mut chars = format_hex(self.rng_state, 4);
        chars.push(',');
        let mut counter = format_hex(self.nmi_counter as u16, 2);
        chars.append(&mut counter);
        chars.push(',');
        let mut timing = format_unsigned(self.nmi_timing as u64);
        chars.append(&mut timing);
        chars.push(',');
        let mut entropy = format_unsigned(self.entropy.to_inner() as u64);
        chars.append(&mut entropy);
        from_chars(&chars)
    }
}

impl std::str::FromStr for RandomBoardParam {
    type Err = ParseError;

    /// The parameters that the text writes, or what is wrong with the text.
    fn from_str(s: &str) -> (res: Result<RandomBoardParam, ParseError>)
        ensures
            res == param_of_text(s@),
            res matches Ok(p) ==> p.entropy.wf(),
    {
        RandomBoardParam::parse(s)
    }
}

} // verus!
