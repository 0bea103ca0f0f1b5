//! The encoder: values to bytes, proved to produce `wire::encode`.
use vstd::prelude::*;
use crate::value::{
    lemma_item_decreases, lemma_model_seq_index, lemma_model_seq_len, model_seq, ParseError, RespValue,
};
use crate::wire::{crlf, digits_of, encode, encode_all, int_text};

verus! {

/// Appends the decimal digits of `n`.
fn push_digits(out: &mut Vec<u8>, n: u64)
    ensures
        final(out)@ == old(out)@ + digits_of(n as nat),
    decreases n,
{
    if n >= 10 {
        push_digits(out, n / 10);
    }
    out.push((48 + n % 10) as u8);
    proof {
        if n < 10 {
            assert(digits_of(n as nat) =~= seq![(48 + n) as u8]);
        }
        assert(final(out)@ =~= old(out)@ + digits_of(n as nat));
    }
}

/// Appends the decimal text of `i`.
fn push_int(out: &mut Vec<u8>, i: i64)
    ensures
        final(out)@ == old(out)@ + int_text(i as int),
{
    if i < 0 {
        out.push(45u8);
        let magnitude: u64 = if i == i64::MIN {
            9223372036854775808u64
        } else {
            (-i) as u64
        };
        push_digits(out, magnitude);
        proof {
            assert(final(out)@ =~= old(out)@ + int_text(i as int));
        }
    } else {
        push_digits(out, i as u64);
    }
}

/// Appends the bytes of `s`.
fn push_bytes(out: &mut Vec<u8>, s: &[u8])
    ensures
        final(out)@ == old(out)@ + s@,
{
    let ghost start = out@;
    let mut i: usize = 0;
    while i < s.len()
        invariant
            i <= s@.len(),
            out@ == start + s@.subrange(0, i as int),
        decreases s@.len() - i,
    {
        out.push(s[i]);
        i = i + 1;
        proof {
            assert(out@ =~= start + s@.subrange(0, i as int));
        }
    }
    proof {
        assert(s@.subrange(0, i as int) =~= s@);
    }
}

fn push_crlf(out: &mut Vec<u8>)
    ensures
        final(out)@ == old(out)@ + crlf(),
{
    out.push(13u8);
    out.push(10u8);
    proof {
        assert(final(out)@ =~= old(out)@ + crlf());
    }
}

/// Appends the encoding of `value`.
pub fn encode_into(value: &RespValue, out: &mut Vec<u8>)
    ensures
        final(out)@ == old(out)@ + encode(value@),
    decreases value,
{
    let ghost start = out@;
    match value {
        RespValue::SimpleString(v) => {
            out.push(43u8);
            push_bytes(out, v.as_slice());
            push_crlf(out);
        },
        RespValue::Error(v) => {
            out.push(45u8);
            push_bytes(out, v.as_slice());
            push_crlf(out);
        },
        RespValue::Integer(v) => {
            out.push(58u8);
            push_int(out, *v);
            push_crlf(out);
        },
        RespValue::BulkString(Some(v)) => {
            out.push(36u8);
            push_digits(out, v.len() as u64);
            push_crlf(out);
            push_bytes(out, v.as_slice());
            push_crlf(out);
        },
        RespValue::BulkString(None) => {
            out.push(36u8);
            out.push(45u8);
            out.push(49u8);
            push_crlf(out);
        },
        RespValue::Arrays(Some(arr)) => {
            out.push(42u8);
            push_digits(out, arr.len() as u64);
            push_crlf(out);
            let ghost items = model_seq(arr@);
            let ghost head = out@;
            proof {
                lemma_model_seq_len(arr@);
                assert(encode_all(items.subrange(0, 0)) =~= Seq::<u8>::empty());
                assert(head =~= head + encode_all(items.subrange(0, 0)));
            }
            let mut i: usize = 0;
            while i < arr.len()
                invariant
                    i <= arr@.len(),
                    *value == RespValue::Arrays(Some(*arr)),
                    items == model_seq(arr@),
                    items.len() == arr@.len(),
                    out@ == head + encode_all(items.subrange(0, i as int)),
                decreases arr@.len() - i,
            {
                proof {
                    lemma_item_decreases(*value, *arr, i as int);
                    lemma_model_seq_index(arr@, i as int);
                    assert(items.subrange(0, i + 1).drop_last() =~= items.subrange(0, i as int));
                }
                encode_into(&arr[i], out);
                i = i + 1;
                proof {
                    assert(out@ =~= head + encode_all(items.subrange(0, i as int)));
                }
            }
            proof {
                assert(items.subrange(0, i as int) =~= items);
            }
        },
        RespValue::Arrays(None) => {
            out.push(42u8);
            out.push(45u8);
            out.push(49u8);
            push_crlf(out);
        },
    }
    proof {
        assert(out@ =~= start + encode(value@));
    }
}

/// Encodes a value. Encoding never fails; the error type mirrors decoding.
pub fn serializer(value: &RespValue) -> (r: Result<Vec<u8>, ParseError>)
    ensures
        r is Ok,
        r->Ok_0@ == encode(value@),
{
    let mut out: Vec<u8> = Vec::new();
    encode_into(value, &mut out);
    proof {
        assert(out@ =~= encode(value@));
    }
    Ok(out)
}

} // verus!
