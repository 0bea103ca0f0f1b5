//! The decoder: bytes to values, each function proved to compute the grammar
//! of `wire`.
use vstd::prelude::*;
use crate::value::{copy_bytes, model, model_seq, ParseError, ParseValue, RespValue, Val};
use crate::wire::{
    all_digits, crlf_at, decode, decode_array, decode_bulk, decode_items, decode_simple,
    digits_value, find_crlf, fits_i64, header, is_digit, lemma_find_crlf_bounds, parse_int,
    sign_len,
};

verus! {

pub type ParseResult = Result<ParseValue, ParseError>;

/// Whether the outcome `r` of a parser is the decoding `d`.
pub open spec fn reports(r: ParseResult, d: Result<(Val, int), ParseError>) -> bool {
    match d {
        Ok((v, n)) => r is Ok && r->Ok_0.result@ == v && r->Ok_0.bytes_read == n,
        Err(e) => r == ParseResult::Err(e),
    }
}

/// A successful decoding spans at least one byte and no more than the input.
pub open spec fn consumed_in_bounds(r: ParseResult, input: Seq<u8>) -> bool {
    r is Ok ==> 0 < r->Ok_0.bytes_read <= input.len()
}

/// Searching a suffix is searching the whole sequence from further on.
pub proof fn lemma_find_crlf_shift(s: Seq<u8>, k: int, j: int)
    requires
        0 <= k <= s.len(),
        0 <= j,
    ensures
        find_crlf(s.subrange(k, s.len() as int), j) == (match find_crlf(s, j + k) {
            Some(p) => Some(p - k),
            None => None::<int>,
        }),
    decreases s.len() - j,
{
    let t = s.subrange(k, s.len() as int);
    if j + 1 < t.len() {
        assert(crlf_at(t, j) == crlf_at(s, j + k));
        if !crlf_at(t, j) {
            lemma_find_crlf_shift(s, k, j + 1);
        }
    }
}

/// Splits `line` at the first CRLF that starts at index `min_len_before_crlf` or
/// later: the bytes before it, and the bytes after it.
pub fn read_line(line: &[u8], min_len_before_crlf: usize) -> (r: Result<(&[u8], &[u8]), ParseError>)
    ensures
        match find_crlf(line@, min_len_before_crlf as int) {
            Some(p) => r is Ok && r->Ok_0.0@ == line@.subrange(0, p) && r->Ok_0.1@ == line@.subrange(
                p + 2,
                line@.len() as int,
            ),
            None => r == Result::<(&[u8], &[u8]), ParseError>::Err(ParseError::MissingCRLF),
        },
{
    if line.len() < min_len_before_crlf {
        return Err(ParseError::MissingCRLF);
    }
    let mut i: usize = min_len_before_crlf;
    while line.len() - i > 1
        invariant
            min_len_before_crlf <= i <= line@.len(),
            find_crlf(line@, min_len_before_crlf as int) == find_crlf(line@, i as int),
        decreases line@.len() - i,
    {
        if line[i] == 13u8 && line[i + 1] == 10u8 {
            return Ok((&line[0..i], &line[i + 2..line.len()]));
        }
        i = i + 1;
    }
    Err(ParseError::MissingCRLF)
}

/// One more digit at the end multiplies the value by ten and adds the digit.
pub proof fn lemma_digits_value_step(s: Seq<u8>, j: int)
    requires
        0 <= j < s.len(),
    ensures
        digits_value(s.subrange(0, j + 1)) == 10 * digits_value(s.subrange(0, j)) + (s[j] - 48),
{
    assert(s.subrange(0, j + 1).drop_last() =~= s.subrange(0, j));
}

/// The value of a digit sequence is at least that of any of its prefixes.
pub proof fn lemma_digits_value_prefix(s: Seq<u8>, j: int)
    requires
        0 <= j <= s.len(),
        all_digits(s),
    ensures
        0 <= digits_value(s.subrange(0, j)) <= digits_value(s),
    decreases s.len() - j,
{
    assert(all_digits(s.subrange(0, j)));
    lemma_digits_value_nonneg(s.subrange(0, j));
    if j == 0 {
        if s.len() > 0 {
            lemma_digits_value_prefix(s, 1);
            lemma_digits_value_step(s, 0);
        } else {
            assert(s.subrange(0, 0) =~= s);
        }
    } else if j == s.len() {
        assert(s.subrange(0, j) =~= s);
    } else {
        lemma_digits_value_prefix(s, j + 1);
        lemma_digits_value_step(s, j);
    }
}

/// A digit sequence denotes a natural number.
pub proof fn lemma_digits_value_nonneg(s: Seq<u8>)
    requires
        all_digits(s),
    ensures
        0 <= digits_value(s),
    decreases s.len(),
{
    if s.len() > 0 {
        assert(all_digits(s.drop_last()));
        lemma_digits_value_nonneg(s.drop_last());
    }
}

/// Reads a whole line as a signed decimal integer; on success also gives the
/// number of bytes read, which is the line's length.
pub fn read_integer(line: &[u8]) -> (r: Result<(i64, usize), ParseError>)
    ensures
        match parse_int(line@) {
            Ok(n) => r == Result::<(i64, usize), ParseError>::Ok((n as i64, line@.len() as usize)),
            Err(e) => r == Result::<(i64, usize), ParseError>::Err(e),
        },
{
    if line.len() == 0 {
        return Err(ParseError::UnexpectedEof);
    }
    let neg = line[0] == 45u8;
    let start: usize = if line[0] == 45u8 || line[0] == 43u8 {
        1
    } else {
        0
    };
    let ghost ds = line@.subrange(start as int, line@.len() as int);
    if start >= line.len() {
        proof {
            assert(ds.len() == 0);
        }
        return Err(ParseError::UnexpectedEof);
    }
    let mut idx: usize = start;
    let mut value: i64 = 0;
    while idx < line.len()
        invariant
            start == sign_len(line@),
            neg == (line@[0] == 45u8),
            ds == line@.subrange(start as int, line@.len() as int),
            start <= idx <= line@.len(),
            all_digits(ds.subrange(0, idx - start)),
            value == (if neg {
                -digits_value(ds.subrange(0, idx - start))
            } else {
                digits_value(ds.subrange(0, idx - start))
            }),
        decreases line@.len() - idx,
    {
        let ghost j = idx - start;
        let c = line[idx];
        if c < 48u8 || c > 57u8 {
            proof {
                assert(!is_digit(ds[j]));
            }
            return Err(ParseError::InvalidLength);
        }
        let d = (c - 48u8) as i64;
        proof {
            lemma_digits_value_step(ds, j);
            assert(all_digits(ds.subrange(0, j + 1)));
        }
        let next = match value.checked_mul(10) {
            Some(m) => if neg {
                m.checked_sub(d)
            } else {
                m.checked_add(d)
            },
            None => None,
        };
        match next {
            Some(v) => {
                value = v;
            },
            None => {
                proof {
                    let p = ds.subrange(0, j + 1);
                    lemma_digits_value_nonneg(ds.subrange(0, j));
                    assert(!fits_i64(if neg { -digits_value(p) } else { digits_value(p) })) by (nonlinear_arith)
                        requires
                            value == (if neg {
                                -digits_value(ds.subrange(0, j))
                            } else {
                                digits_value(ds.subrange(0, j))
                            }),
                            digits_value(p) == 10 * digits_value(ds.subrange(0, j)) + d,
                            0 <= d <= 9,
                            0 <= digits_value(ds.subrange(0, j)),
                            !fits_i64(10 * value) || !fits_i64(if neg { 10 * value - d } else { 10 * value + d }),
                    ;
                    if all_digits(ds) {
                        lemma_digits_value_prefix(ds, j + 1);
                    }
                }
                return Err(ParseError::InvalidLength);
            },
        }
        idx = idx + 1;
    }
    proof {
        assert(ds.subrange(0, idx - start) =~= ds);
    }
    Ok((value, idx))
}

/// The header of a tagged value is the first line after its tag.
pub proof fn lemma_header(s: Seq<u8>)
    requires
        s.len() >= 1,
    ensures
        match find_crlf(s.subrange(1, s.len() as int), 0) {
            Some(p) => header(s) == Some((s.subrange(1, p + 1), p + 3)) && 0 <= p && p + 3 <= s.len()
                && s.subrange(1, s.len() as int).subrange(0, p) == s.subrange(1, p + 1),
            None => header(s) is None,
        },
{
    lemma_find_crlf_shift(s, 1, 0);
    lemma_find_crlf_bounds(s, 1);
    if let Some(p) = find_crlf(s.subrange(1, s.len() as int), 0) {
        assert(s.subrange(1, s.len() as int).subrange(0, p) =~= s.subrange(1, p + 1));
    }
}

/// Decodes a value tagged `+`, `-` or `:`, whose tag `data_type` gives; the first
/// byte of `input` is taken to be that tag and is skipped.
pub fn simple_parser(input: &[u8], data_type: &u8) -> (r: ParseResult)
    requires
        input@.len() >= 1,
    ensures
        reports(r, decode_simple(input@, *data_type)),
        consumed_in_bounds(r, input@),
{
    proof {
        lemma_header(input@);
    }
    let data = match read_line(&input[1..input.len()], 0) {
        Ok(d) => d,
        Err(e) => return Err(e),
    };
    let bytes_read = input.len() - data.1.len();
    if *data_type == 43u8 {
        Ok(ParseValue { result: RespValue::SimpleString(copy_bytes(data.0)), bytes_read })
    } else if *data_type == 45u8 {
        Ok(ParseValue { result: RespValue::Error(copy_bytes(data.0)), bytes_read })
    } else if *data_type == 58u8 {
        match read_integer(data.0) {
            Ok((n, _)) => Ok(ParseValue { result: RespValue::Integer(n), bytes_read }),
            Err(e) => Err(e),
        }
    } else {
        Err(ParseError::InvalidInput)
    }
}

/// Decodes a bulk string: `$`, a length line, then that many bytes and a CRLF.
pub fn bulk_string_parser(input: &[u8]) -> (r: ParseResult)
    requires
        input@.len() >= 1,
    ensures
        reports(r, decode_bulk(input@)),
        consumed_in_bounds(r, input@),
{
    proof {
        lemma_header(input@);
    }
    let size_input = match read_line(&input[1..input.len()], 0) {
        Ok(d) => d,
        Err(e) => return Err(e),
    };
    let size = match read_integer(size_input.0) {
        Ok((n, _)) => n,
        Err(e) => return Err(e),
    };
    let after = input.len() - size_input.1.len();
    if size < 0 {
        return Ok(ParseValue { result: RespValue::BulkString(None), bytes_read: after });
    }
    let rest = size_input.1;
    if rest.len() < 2 || size as u64 > (rest.len() - 2) as u64 {
        return Err(ParseError::MissingCRLF);
    }
    let n = size as usize;
    if rest[n] != 13u8 || rest[n + 1] != 10u8 {
        return Err(ParseError::InvalidLength);
    }
    let body = copy_bytes(&rest[0..n]);
    proof {
        assert(rest@.subrange(0, n as int) =~= input@.subrange(after as int, after + n));
    }
    Ok(ParseValue { result: RespValue::BulkString(Some(body)), bytes_read: after + n + 2 })
}

/// The decoding of a run of values, with `vs` decoded over `c` bytes before it.
pub open spec fn after_prefix(
    vs: Seq<Val>,
    c: int,
    d: Result<(Seq<Val>, int), ParseError>,
) -> Result<(Seq<Val>, int), ParseError> {
    match d {
        Ok((ws, m)) => Ok((vs + ws, c + m)),
        Err(e) => Err(e),
    }
}

proof fn lemma_model_seq_push(s: Seq<RespValue>, x: RespValue)
    ensures
        model_seq(s.push(x)) == model_seq(s).push(model(x)),
{
    assert(s.push(x).drop_last() =~= s);
}

/// Decodes an array: `*`, a count line, then that many values.
pub fn bulk_array_parser(input: &[u8]) -> (r: ParseResult)
    requires
        input@.len() >= 1,
    ensures
        reports(r, decode_array(input@)),
        consumed_in_bounds(r, input@),
    decreases input@.len(), 0int,
{
    proof {
        lemma_header(input@);
    }
    let size_input = match read_line(&input[1..input.len()], 0) {
        Ok(d) => d,
        Err(e) => return Err(e),
    };
    let count = match read_integer(size_input.0) {
        Ok((n, _)) => n,
        Err(e) => return Err(e),
    };
    let after = input.len() - size_input.1.len();
    if count < 0 {
        return Ok(ParseValue { result: RespValue::Arrays(None), bytes_read: after });
    }
    let ghost rest0 = input@.subrange(after as int, input@.len() as int);
    let mut items: Vec<RespValue> = Vec::new();
    let mut total: usize = after;
    let mut i: i64 = 0;
    proof {
        let d = decode_items(rest0, count as int);
        assert(decode_array(input@) == match d {
            Err(e) => Err(e),
            Ok((vs, m)) => Ok((Val::Array(Some(vs)), after + m)),
        });
        assert(d == after_prefix(model_seq(items@), 0, d)) by {
            if let Ok((ws, m)) = d {
                assert(Seq::<Val>::empty() + ws =~= ws);
            }
        }
    }
    while i < count
        invariant
            3 <= after <= total <= input@.len(),
            0 <= i <= count,
            rest0 == input@.subrange(after as int, input@.len() as int),
            decode_array(input@) == match decode_items(rest0, count as int) {
                Err(e) => Err(e),
                Ok((vs, m)) => Ok((Val::Array(Some(vs)), after + m)),
            },
            decode_items(rest0, count as int) == after_prefix(
                model_seq(items@),
                total - after,
                decode_items(input@.subrange(total as int, input@.len() as int), count - i),
            ),
        decreases count - i,
    {
        let ghost cur = input@.subrange(total as int, input@.len() as int);
        if total >= input.len() {
            proof {
                assert(decode_items(cur, count - i) == Result::<(Seq<Val>, int), ParseError>::Err(
                    ParseError::UnexpectedEof,
                ));
            }
            return Err(ParseError::UnexpectedEof);
        }
        let elem = match parse_dispatcher(&input[total..input.len()]) {
            Ok(e) => e,
            Err(e) => {
                proof {
                    assert(decode_items(cur, count - i) == Result::<(Seq<Val>, int), ParseError>::Err(e));
                }
                return Err(e);
            },
        };
        let ghost n = elem.bytes_read as int;
        proof {
            let next = input@.subrange(total + n, input@.len() as int);
            assert(cur.subrange(n, cur.len() as int) =~= next);
            let d = decode_items(next, count - i - 1);
            lemma_model_seq_push(items@, elem.result);
            if let Ok((ws, m)) = d {
                assert(model_seq(items@) + (seq![elem.result@] + ws) =~= model_seq(items@).push(
                    elem.result@,
                ) + ws);
            }
        }
        items.push(elem.result);
        total = total + elem.bytes_read;
        i = i + 1;
    }
    proof {
        assert(model_seq(items@) + Seq::<Val>::empty() =~= model_seq(items@));
    }
    Ok(ParseValue { result: RespValue::Arrays(Some(items)), bytes_read: total })
}

/// Decodes one value from the front of `input`, choosing the parser by the
/// leading type tag; gives the value and the number of bytes it spans.
pub fn parse_dispatcher(input: &[u8]) -> (r: ParseResult)
    ensures
        reports(r, decode(input@)),
        consumed_in_bounds(r, input@),
    decreases input@.len(), 1int,
{
    if input.len() == 0 {
        return Err(ParseError::InvalidInput);
    }
    let data_type = input[0];
    if data_type == 43u8 || data_type == 45u8 || data_type == 58u8 {
        simple_parser(input, &data_type)
    } else if data_type == 36u8 {
        bulk_string_parser(input)
    } else if data_type == 42u8 {
        bulk_array_parser(input)
    } else {
        Err(ParseError::InvalidInput)
    }
}

} // verus!
