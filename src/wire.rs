//! The wire grammar, stated as spec functions: what encoding a value yields and
//! what decoding a byte sequence yields.
use vstd::prelude::*;
use crate::value::{ParseError, Val};

verus! {

pub open spec fn crlf() -> Seq<u8> {
    seq![13u8, 10u8]
}

/// Whether `s` holds a CRLF pair starting at index `i`.
pub open spec fn crlf_at(s: Seq<u8>, i: int) -> bool {
    0 <= i && i + 1 < s.len() && s[i] == 13u8 && s[i + 1] == 10u8
}

/// Index of the first CRLF pair of `s` that starts at `from` or later.
pub open spec fn find_crlf(s: Seq<u8>, from: int) -> Option<int>
    decreases s.len() - from,
{
    if from < 0 || from + 1 >= s.len() {
        None
    } else if crlf_at(s, from) {
        Some(from)
    } else {
        find_crlf(s, from + 1)
    }
}

pub open spec fn is_digit(b: u8) -> bool {
    48u8 <= b <= 57u8
}

pub open spec fn all_digits(s: Seq<u8>) -> bool {
    forall|i: int| 0 <= i < s.len() ==> is_digit(#[trigger] s[i])
}

/// The number that a sequence of decimal digits denotes.
pub open spec fn digits_value(s: Seq<u8>) -> int
    decreases s.len(),
{
    if s.len() == 0 {
        0
    } else {
        10 * digits_value(s.drop_last()) + (s.last() - 48)
    }
}

/// Length of the optional sign that starts an integer line.
pub open spec fn sign_len(line: Seq<u8>) -> int {
    if line.len() > 0 && (line[0] == 45u8 || line[0] == 43u8) {
        1
    } else {
        0
    }
}

pub open spec fn fits_i64(n: int) -> bool {
    i64::MIN <= n <= i64::MAX
}

/// A signed decimal integer line: an optional `+` or `-`, then one or more digits,
/// with a value that fits in 64 bits.
pub open spec fn parse_int(line: Seq<u8>) -> Result<int, ParseError> {
    let ds = line.subrange(sign_len(line), line.len() as int);
    let n = if sign_len(line) == 1 && line[0] == 45u8 {
        -digits_value(ds)
    } else {
        digits_value(ds)
    };
    if ds.len() == 0 {
        Err(ParseError::UnexpectedEof)
    } else if !all_digits(ds) || !fits_i64(n) {
        Err(ParseError::InvalidLength)
    } else {
        Ok(n)
    }
}

/// Decimal digits of a natural number, most significant first.
pub open spec fn digits_of(n: nat) -> Seq<u8>
    decreases n,
{
    if n < 10 {
        seq![(48 + n) as u8]
    } else {
        digits_of(n / 10).push((48 + n % 10) as u8)
    }
}

/// Decimal text of an integer: a `-` for negatives, never a `+`.
pub open spec fn int_text(i: int) -> Seq<u8> {
    if i < 0 {
        seq![45u8] + digits_of((-i) as nat)
    } else {
        digits_of(i as nat)
    }
}

/// The encoding of a value.
pub open spec fn encode(v: Val) -> Seq<u8>
    decreases v,
{
    match v {
        Val::Simple(s) => seq![43u8] + s + crlf(),
        Val::Error(s) => seq![45u8] + s + crlf(),
        Val::Integer(i) => seq![58u8] + int_text(i) + crlf(),
        Val::Bulk(None) => seq![36u8, 45u8, 49u8] + crlf(),
        Val::Bulk(Some(b)) => seq![36u8] + int_text(b.len() as int) + crlf() + b + crlf(),
        Val::Array(None) => seq![42u8, 45u8, 49u8] + crlf(),
        Val::Array(Some(items)) => seq![42u8] + int_text(items.len() as int) + crlf() + encode_all(
            items,
        ),
    }
}

/// The encodings of a sequence of values, concatenated in order.
pub open spec fn encode_all(items: Seq<Val>) -> Seq<u8>
    decreases items,
{
    if items.len() == 0 {
        Seq::empty()
    } else {
        encode_all(items.drop_last()) + encode(items.last())
    }
}

/// The header line of a tagged value: the bytes after the tag up to the first
/// CRLF, and the number of bytes read through that CRLF.
pub open spec fn header(s: Seq<u8>) -> Option<(Seq<u8>, int)> {
    match find_crlf(s, 1) {
        Some(p) => Some((s.subrange(1, p), p + 2)),
        None => None,
    }
}

/// Decoding of a value whose tag is `+`, `-` or `:`; the tag is taken from `tag`.
pub open spec fn decode_simple(s: Seq<u8>, tag: u8) -> Result<(Val, int), ParseError> {
    match header(s) {
        None => Err(ParseError::MissingCRLF),
        Some((line, after)) => if tag == 43u8 {
            Ok((Val::Simple(line), after))
        } else if tag == 45u8 {
            Ok((Val::Error(line), after))
        } else if tag == 58u8 {
            match parse_int(line) {
                Ok(n) => Ok((Val::Integer(n), after)),
                Err(e) => Err(e),
            }
        } else {
            Err(ParseError::InvalidInput)
        },
    }
}

/// Decoding of a bulk string: a length line, then exactly that many bytes and a
/// CRLF; a negative length is the null bulk string and reads no body.
pub open spec fn decode_bulk(s: Seq<u8>) -> Result<(Val, int), ParseError> {
    match header(s) {
        None => Err(ParseError::MissingCRLF),
        Some((line, after)) => match parse_int(line) {
            Err(e) => Err(e),
            Ok(n) => if n < 0 {
                Ok((Val::Bulk(None), after))
            } else if after + n + 2 > s.len() {
                Err(ParseError::MissingCRLF)
            } else if !crlf_at(s, after + n) {
                Err(ParseError::InvalidLength)
            } else {
                Ok((Val::Bulk(Some(s.subrange(after, after + n))), after + n + 2))
            },
        },
    }
}

/// Decoding of an array: a count line, then that many values one after another;
/// a negative count is the null array and reads nothing more.
pub open spec fn decode_array(s: Seq<u8>) -> Result<(Val, int), ParseError>
    decreases s.len(), 1int,
{
    match header(s) {
        None => Err(ParseError::MissingCRLF),
        Some((line, after)) => match parse_int(line) {
            Err(e) => Err(e),
            Ok(n) => if n < 0 {
                Ok((Val::Array(None), after))
            } else {
                proof {
                    lemma_find_crlf_bounds(s, 1);
                }
                match decode_items(s.subrange(after, s.len() as int), n) {
                    Err(e) => Err(e),
                    Ok((items, m)) => Ok((Val::Array(Some(items)), after + m)),
                }
            },
        },
    }
}

/// Decoding of `k` values one after another from the front of `s`.
pub open spec fn decode_items(s: Seq<u8>, k: int) -> Result<(Seq<Val>, int), ParseError>
    decreases s.len(), 3int,
{
    if k <= 0 {
        Ok((Seq::empty(), 0))
    } else if s.len() == 0 {
        Err(ParseError::UnexpectedEof)
    } else {
        match decode(s) {
            Err(e) => Err(e),
            // A decoded value always spans at least one byte and stays within `s`;
            // the test only makes the recursion visibly shrink.
            Ok((v, n)) => if 0 < n <= s.len() {
                match decode_items(s.subrange(n, s.len() as int), k - 1) {
                    Err(e) => Err(e),
                    Ok((vs, m)) => Ok((seq![v] + vs, n + m)),
                }
            } else {
                Err(ParseError::UnexpectedEof)
            },
        }
    }
}

/// Decoding of one value from the front of `s`: the value and the number of
/// bytes it spans.
pub open spec fn decode(s: Seq<u8>) -> Result<(Val, int), ParseError>
    decreases s.len(), 2int,
{
    if s.len() == 0 {
        Err(ParseError::InvalidInput)
    } else if s[0] == 43u8 || s[0] == 45u8 || s[0] == 58u8 {
        decode_simple(s, s[0])
    } else if s[0] == 36u8 {
        decode_bulk(s)
    } else if s[0] == 42u8 {
        decode_array(s)
    } else {
        Err(ParseError::InvalidInput)
    }
}

pub proof fn lemma_find_crlf_bounds(s: Seq<u8>, from: int)
    requires
        0 <= from,
    ensures
        find_crlf(s, from) matches Some(p) ==> from <= p && crlf_at(s, p) && p + 2 <= s.len(),
        find_crlf(s, from) matches Some(p) ==> forall|j: int| from <= j < p ==> !crlf_at(s, j),
        find_crlf(s, from) is None ==> forall|j: int| from <= j ==> !crlf_at(s, j),
    decreases s.len() - from,
{
    if !(from < 0 || from + 1 >= s.len()) && !crlf_at(s, from) {
        lemma_find_crlf_bounds(s, from + 1);
    }
}

} // verus!
