//! What holds between encoding and decoding: decoding an encoding gives the value
//! back, and no strict prefix of an encoding decodes.
use vstd::prelude::*;
use crate::value::{ParseError, RespValue, Val};
use crate::wire::{
    all_digits, crlf, crlf_at, decode, decode_items, digits_of, digits_value, encode, encode_all,
    find_crlf, fits_i64, header, int_text, is_digit, parse_int, sign_len,
};

verus! {

/// Whether `s` holds no CRLF pair.
pub open spec fn no_crlf(s: Seq<u8>) -> bool {
    forall|j: int| !crlf_at(s, j)
}

/// A value that the wire format can carry: simple strings and errors hold no
/// CRLF, and every length, count and integer fits in 64 signed bits.
pub open spec fn well_formed(v: Val) -> bool
    decreases v,
{
    match v {
        Val::Simple(s) => no_crlf(s),
        Val::Error(s) => no_crlf(s),
        Val::Integer(i) => fits_i64(i),
        Val::Bulk(Some(b)) => b.len() <= i64::MAX,
        Val::Bulk(None) => true,
        Val::Array(Some(items)) => items.len() <= i64::MAX && forall|i: int|
            0 <= i < items.len() ==> well_formed(#[trigger] items[i]),
        Val::Array(None) => true,
    }
}

proof fn lemma_digits_of(n: nat)
    ensures
        digits_of(n).len() >= 1,
        all_digits(digits_of(n)),
        digits_value(digits_of(n)) == n,
    decreases n,
{
    let s = digits_of(n);
    assert(digits_value(s) == 10 * digits_value(s.drop_last()) + (s.last() - 48));
    if n >= 10 {
        lemma_digits_of(n / 10);
        assert(s.drop_last() =~= digits_of(n / 10));
        assert(s.last() == 48 + n % 10);
        assert(10 * (n / 10) + n % 10 == n);
    } else {
        assert(s.drop_last() =~= Seq::<u8>::empty());
        assert(digits_value(Seq::<u8>::empty()) == 0);
        assert(s.last() == 48 + n);
    }
}

/// Decimal text reads back as the integer it was written from.
proof fn lemma_int_text(i: int)
    requires
        fits_i64(i),
    ensures
        parse_int(int_text(i)) == Ok::<int, crate::value::ParseError>(i),
        int_text(i).len() >= 1,
        no_crlf(int_text(i)),
{
    let t = int_text(i);
    if i < 0 {
        lemma_digits_of((-i) as nat);
        let d = digits_of((-i) as nat);
        assert(t.subrange(1, t.len() as int) =~= d);
        assert(sign_len(t) == 1);
    } else {
        lemma_digits_of(i as nat);
        assert(is_digit(t[0]));
        assert(sign_len(t) == 0);
        assert(t.subrange(0, t.len() as int) =~= t);
    }
    assert forall|j: int| !crlf_at(t, j) by {
        if crlf_at(t, j) {
            if i < 0 {
                if j > 0 {
                    assert(t[j] == digits_of((-i) as nat)[j - 1]);
                }
            } else {
                assert(is_digit(t[j]));
            }
        }
    }
}

proof fn lemma_find_crlf_first(s: Seq<u8>, j: int, p: int)
    requires
        0 <= j <= p,
        crlf_at(s, p),
        forall|k: int| j <= k < p ==> !crlf_at(s, k),
    ensures
        find_crlf(s, j) == Some(p),
    decreases p - j,
{
    if j < p {
        lemma_find_crlf_first(s, j + 1, p);
    }
}

/// The header of `tag + text + CRLF + rest` is `text`, when `text` holds no CRLF.
proof fn lemma_header_of(tag: u8, text: Seq<u8>, rest: Seq<u8>)
    requires
        no_crlf(text),
    ensures
        header(seq![tag] + text + crlf() + rest) == Some((text, text.len() + 3int)),
{
    let s = seq![tag] + text + crlf() + rest;
    let p = text.len() + 1int;
    assert forall|k: int| 1 <= k < p implies !crlf_at(s, k) by {
        if k + 1 < p {
            assert(crlf_at(s, k) == crlf_at(text, k - 1));
        } else {
            assert(s[k + 1] == 13u8);
        }
    }
    lemma_find_crlf_first(s, 1, p);
    assert(s.subrange(1, p) =~= text);
}

/// Encodings of a sequence of values concatenate from the front as well.
proof fn lemma_encode_all_cons(x: Val, r: Seq<Val>)
    ensures
        encode_all(seq![x] + r) == encode(x) + encode_all(r),
    decreases r.len(),
{
    if r.len() == 0 {
        assert(seq![x] + r =~= seq![x]);
        assert(seq![x].drop_last() =~= Seq::<Val>::empty());
        assert(encode_all(seq![x]) == encode_all(Seq::<Val>::empty()) + encode(x));
        assert(Seq::<u8>::empty() + encode(x) =~= encode(x));
        assert(encode_all(r) =~= Seq::<u8>::empty());
        assert(encode(x) + encode_all(r) =~= encode(x));
    } else {
        lemma_encode_all_cons(x, r.drop_last());
        assert((seq![x] + r).drop_last() =~= seq![x] + r.drop_last());
        assert(encode_all(seq![x] + r) =~= encode(x) + encode_all(r));
    }
}

proof fn lemma_encode_nonempty(v: Val)
    ensures
        encode(v).len() >= 3,
{
}

/// Decoding the encoding of a well-formed value, followed by anything, gives the
/// value and the length of its encoding.
proof fn lemma_decode_encode(v: Val, t: Seq<u8>)
    requires
        well_formed(v),
    ensures
        decode(encode(v) + t) == Ok::<(Val, int), crate::value::ParseError>((v, encode(v).len() as int)),
    decreases v,
{
    let s = encode(v) + t;
    match v {
        Val::Simple(x) => {
            assert(s =~= seq![43u8] + x + crlf() + t);
            lemma_header_of(43u8, x, t);
        },
        Val::Error(x) => {
            assert(s =~= seq![45u8] + x + crlf() + t);
            lemma_header_of(45u8, x, t);
        },
        Val::Integer(i) => {
            lemma_int_text(i);
            assert(s =~= seq![58u8] + int_text(i) + crlf() + t);
            lemma_header_of(58u8, int_text(i), t);
        },
        Val::Bulk(None) => {
            lemma_int_text(-1);
            assert(int_text(-1) =~= seq![45u8, 49u8]);
            assert(s =~= seq![36u8] + int_text(-1) + crlf() + t);
            lemma_header_of(36u8, int_text(-1), t);
        },
        Val::Bulk(Some(b)) => {
            let n = b.len() as int;
            lemma_int_text(n);
            assert(s =~= seq![36u8] + int_text(n) + crlf() + (b + crlf() + t));
            lemma_header_of(36u8, int_text(n), b + crlf() + t);
            let after = int_text(n).len() + 3int;
            assert(crlf_at(s, after + n));
            assert(s.subrange(after, after + n) =~= b);
        },
        Val::Array(None) => {
            lemma_int_text(-1);
            assert(int_text(-1) =~= seq![45u8, 49u8]);
            assert(s =~= seq![42u8] + int_text(-1) + crlf() + t);
            lemma_header_of(42u8, int_text(-1), t);
        },
        Val::Array(Some(items)) => {
            let k = items.len() as int;
            lemma_int_text(k);
            assert(s =~= seq![42u8] + int_text(k) + crlf() + (encode_all(items) + t));
            lemma_header_of(42u8, int_text(k), encode_all(items) + t);
            let after = int_text(k).len() + 3int;
            assert(s.subrange(after, s.len() as int) =~= encode_all(items) + t);
            lemma_decode_encode_all(items, t);
        },
    }
}

/// Decoding the concatenated encodings of well-formed values, followed by
/// anything, gives the values back.
proof fn lemma_decode_encode_all(items: Seq<Val>, t: Seq<u8>)
    requires
        forall|i: int| 0 <= i < items.len() ==> well_formed(#[trigger] items[i]),
    ensures
        decode_items(encode_all(items) + t, items.len() as int) == Ok::<
            (Seq<Val>, int),
            crate::value::ParseError,
        >((items, encode_all(items).len() as int)),
    decreases items,
{
    if items.len() == 0 {
        assert(encode_all(items) + t =~= t);
        assert(items =~= Seq::<Val>::empty());
    } else {
        let x = items[0];
        let r = items.subrange(1, items.len() as int);
        assert(items =~= seq![x] + r);
        lemma_encode_all_cons(x, r);
        let s = encode_all(items) + t;
        assert(s =~= encode(x) + (encode_all(r) + t));
        lemma_decode_encode(x, encode_all(r) + t);
        lemma_encode_nonempty(x);
        let n = encode(x).len() as int;
        assert(s.subrange(n, s.len() as int) =~= encode_all(r) + t);
        lemma_decode_encode_all(r, t);
    }
}

/// The errors that decoding a cut-off encoding may give.
pub open spec fn truncation_error(r: Result<(Val, int), ParseError>) -> bool {
    r == Err::<(Val, int), ParseError>(ParseError::UnexpectedEof) || r == Err::<(Val, int), ParseError>(
        ParseError::MissingCRLF,
    ) || r == Err::<(Val, int), ParseError>(ParseError::InvalidLength)
}

proof fn lemma_find_crlf_none(s: Seq<u8>, from: int)
    requires
        0 <= from,
        forall|k: int| from <= k ==> !crlf_at(s, k),
    ensures
        find_crlf(s, from) is None,
    decreases s.len() - from,
{
    if from + 1 < s.len() {
        lemma_find_crlf_none(s, from + 1);
    }
}

/// Cut off before the end of its first line, a tagged value has no header.
proof fn lemma_header_cut(tag: u8, text: Seq<u8>, rest: Seq<u8>, j: int)
    requires
        no_crlf(text),
        1 <= j < text.len() + 3,
        j <= text.len() + 3 + rest.len(),
    ensures
        header((seq![tag] + text + crlf() + rest).subrange(0, j)) is None,
{
    let s = seq![tag] + text + crlf() + rest;
    let p = s.subrange(0, j);
    assert forall|k: int| 1 <= k implies !crlf_at(p, k) by {
        if crlf_at(p, k) {
            if k + 1 <= text.len() {
                assert(crlf_at(text, k - 1));
            } else {
                assert(p[k + 1] == 13u8);
            }
        }
    }
    lemma_find_crlf_none(p, 1);
}

/// Cut off after its first line, a tagged value keeps its header.
proof fn lemma_header_kept(tag: u8, text: Seq<u8>, rest: Seq<u8>, j: int)
    requires
        no_crlf(text),
        text.len() + 3 <= j <= text.len() + 3 + rest.len(),
    ensures
        header((seq![tag] + text + crlf() + rest).subrange(0, j)) == Some((text, text.len() + 3int)),
{
    let s = seq![tag] + text + crlf() + rest;
    let after = text.len() + 3int;
    assert(s.subrange(0, j) =~= seq![tag] + text + crlf() + rest.subrange(0, j - after));
    lemma_header_of(tag, text, rest.subrange(0, j - after));
}

/// Decoding a nonempty strict prefix of the encoding of a well-formed value
/// fails with a truncation error.
proof fn lemma_decode_cut(v: Val, j: int)
    requires
        well_formed(v),
        1 <= j < encode(v).len(),
    ensures
        truncation_error(decode(encode(v).subrange(0, j))),
    decreases v,
{
    let s = encode(v);
    let p = s.subrange(0, j);
    match v {
        Val::Simple(x) => {
            assert(s =~= seq![43u8] + x + crlf() + Seq::<u8>::empty());
            lemma_header_cut(43u8, x, Seq::<u8>::empty(), j);
        },
        Val::Error(x) => {
            assert(s =~= seq![45u8] + x + crlf() + Seq::<u8>::empty());
            lemma_header_cut(45u8, x, Seq::<u8>::empty(), j);
        },
        Val::Integer(i) => {
            lemma_int_text(i);
            assert(s =~= seq![58u8] + int_text(i) + crlf() + Seq::<u8>::empty());
            lemma_header_cut(58u8, int_text(i), Seq::<u8>::empty(), j);
        },
        Val::Bulk(None) => {
            lemma_int_text(-1);
            assert(int_text(-1) =~= seq![45u8, 49u8]);
            assert(s =~= seq![36u8] + int_text(-1) + crlf() + Seq::<u8>::empty());
            lemma_header_cut(36u8, int_text(-1), Seq::<u8>::empty(), j);
        },
        Val::Array(None) => {
            lemma_int_text(-1);
            assert(int_text(-1) =~= seq![45u8, 49u8]);
            assert(s =~= seq![42u8] + int_text(-1) + crlf() + Seq::<u8>::empty());
            lemma_header_cut(42u8, int_text(-1), Seq::<u8>::empty(), j);
        },
        Val::Bulk(Some(b)) => {
            let n = b.len() as int;
            lemma_int_text(n);
            let text = int_text(n);
            assert(s =~= seq![36u8] + text + crlf() + (b + crlf()));
            if j < text.len() + 3 {
                lemma_header_cut(36u8, text, b + crlf(), j);
            } else {
                lemma_header_kept(36u8, text, b + crlf(), j);
            }
        },
        Val::Array(Some(items)) => {
            let k = items.len() as int;
            lemma_int_text(k);
            let text = int_text(k);
            let body = encode_all(items);
            assert(s =~= seq![42u8] + text + crlf() + body);
            if j < text.len() + 3 {
                lemma_header_cut(42u8, text, body, j);
            } else {
                lemma_header_kept(42u8, text, body, j);
                let after = text.len() + 3int;
                assert(p.subrange(after, p.len() as int) =~= body.subrange(0, j - after));
                lemma_decode_items_cut(items, j - after);
            }
        },
    }
}

/// Decoding a strict prefix of the concatenated encodings of well-formed values
/// fails with a truncation error.
proof fn lemma_decode_items_cut(items: Seq<Val>, j: int)
    requires
        forall|i: int| 0 <= i < items.len() ==> well_formed(#[trigger] items[i]),
        0 <= j < encode_all(items).len(),
    ensures
        decode_items(encode_all(items).subrange(0, j), items.len() as int) matches Err(e) && (e
            == ParseError::UnexpectedEof || e == ParseError::MissingCRLF || e
            == ParseError::InvalidLength),
    decreases items,
{
    let q = encode_all(items).subrange(0, j);
    if items.len() == 0 {
        assert(encode_all(items) =~= Seq::<u8>::empty());
    } else if j == 0 {
        assert(q.len() == 0);
    } else {
        let x = items[0];
        let r = items.subrange(1, items.len() as int);
        assert(items =~= seq![x] + r);
        lemma_encode_all_cons(x, r);
        let ex = encode(x);
        assert(well_formed(x));
        if j < ex.len() {
            assert(q =~= ex.subrange(0, j));
            lemma_decode_cut(x, j);
        } else {
            let q2 = encode_all(r).subrange(0, j - ex.len());
            assert(q =~= ex + q2);
            lemma_decode_encode(x, q2);
            lemma_encode_nonempty(x);
            assert(q.subrange(ex.len() as int, q.len() as int) =~= q2);
            lemma_decode_items_cut(r, j - ex.len());
        }
    }
}

/// Decoding the encoding of a well-formed value gives that value back, and
/// reads exactly the whole encoding.
pub proof fn lemma_round_trip(v: RespValue)
    requires
        well_formed(v@),
    ensures
        decode(encode(v@)) == Ok::<(Val, int), ParseError>((v@, encode(v@).len() as int)),
{
    lemma_decode_encode(v@, Seq::<u8>::empty());
    assert(encode(v@) + Seq::<u8>::empty() =~= encode(v@));
}

/// Decoding a strict prefix of the encoding of a well-formed value never
/// succeeds: the empty prefix has no type tag, and any other prefix fails as
/// cut off (input ended, terminator missing, or length disagreeing).
pub proof fn lemma_truncation_fails(v: RespValue, j: int)
    requires
        well_formed(v@),
        0 <= j < encode(v@).len(),
    ensures
        decode(encode(v@).subrange(0, j)) is Err,
        j == 0 ==> decode(encode(v@).subrange(0, j)) == Err::<(Val, int), ParseError>(
            ParseError::InvalidInput,
        ),
        j > 0 ==> truncation_error(decode(encode(v@).subrange(0, j))),
{
    if j > 0 {
        lemma_decode_cut(v@, j);
    }
}

} // verus!
