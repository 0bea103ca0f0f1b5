//! The protocol's recursive value type and its mathematical model.
use vstd::prelude::*;

verus! {

/// Mathematical model of a protocol value: what a `RespValue` denotes.
pub ghost enum Val {
    Simple(Seq<u8>),
    Error(Seq<u8>),
    Integer(int),
    Bulk(Option<Seq<u8>>),
    Array(Option<Seq<Val>>),
}

/// A protocol value. `None` payloads are the protocol's null markers, distinct
/// from an empty string or an empty array.
#[derive(Debug)]
pub enum RespValue {
    SimpleString(Vec<u8>),
    Error(Vec<u8>),
    Integer(i64),
    BulkString(Option<Vec<u8>>),
    Arrays(Option<Vec<RespValue>>),
}

/// A decoded value together with the number of input bytes its decoding read.
#[derive(Debug)]
pub struct ParseValue {
    pub result: RespValue,
    pub bytes_read: usize,
}

/// Why a decoding failed.
#[derive(Debug, Clone, Copy, PartialEq, Eq, Structural)]
pub enum ParseError {
    /// The type tag is missing or not one of the five known tags.
    InvalidInput,
    /// A length, count or integer is malformed, out of range, or disagrees with the content.
    InvalidLength,
    /// The input ended before a declared structure was complete.
    UnexpectedEof,
    /// No line terminator where one is required.
    MissingCRLF,
    /// A value that the protocol cannot represent.
    InvalidRespValue,
}

/// The model of a value.
pub open spec fn model(v: RespValue) -> Val
    decreases v,
{
    match v {
        RespValue::SimpleString(s) => Val::Simple(s@),
        RespValue::Error(s) => Val::Error(s@),
        RespValue::Integer(i) => Val::Integer(i as int),
        RespValue::BulkString(None) => Val::Bulk(None),
        RespValue::BulkString(Some(s)) => Val::Bulk(Some(s@)),
        RespValue::Arrays(None) => Val::Array(None),
        RespValue::Arrays(Some(items)) => Val::Array(Some(model_seq(items@))),
    }
}

/// The models of a sequence of values, element by element.
pub open spec fn model_seq(s: Seq<RespValue>) -> Seq<Val>
    decreases s,
{
    if s.len() == 0 {
        Seq::empty()
    } else {
        model_seq(s.drop_last()).push(model(s.last()))
    }
}

impl View for RespValue {
    type V = Val;

    open spec fn view(&self) -> Val {
        model(*self)
    }
}

pub proof fn lemma_model_seq_len(s: Seq<RespValue>)
    ensures
        model_seq(s).len() == s.len(),
    decreases s.len(),
{
    if s.len() > 0 {
        lemma_model_seq_len(s.drop_last());
    }
}

pub proof fn lemma_model_seq_index(s: Seq<RespValue>, i: int)
    requires
        0 <= i < s.len(),
    ensures
        model_seq(s).len() == s.len(),
        model_seq(s)[i] == model(s[i]),
    decreases s.len(),
{
    lemma_model_seq_len(s);
    if i < s.len() - 1 {
        lemma_model_seq_index(s.drop_last(), i);
    }
}

/// The bytes of `s`, in a fresh vector.
pub fn copy_bytes(s: &[u8]) -> (r: Vec<u8>)
    ensures
        r@ == s@,
{
    let mut r: Vec<u8> = Vec::new();
    let mut i: usize = 0;
    while i < s.len()
        invariant
            i <= s@.len(),
            r@ == s@.subrange(0, i as int),
        decreases s@.len() - i,
    {
        r.push(s[i]);
        i = i + 1;
        proof {
            assert(r@ =~= s@.subrange(0, i as int));
        }
    }
    proof {
        assert(r@ =~= s@);
    }
    r
}

/// Whether two byte sequences are equal.
pub fn bytes_equal(a: &[u8], b: &[u8]) -> (r: bool)
    ensures
        r == (a@ == b@),
{
    if a.len() != b.len() {
        return false;
    }
    let mut i: usize = 0;
    while i < a.len()
        invariant
            i <= a@.len(),
            a@.len() == b@.len(),
            forall|j: int| 0 <= j < i ==> a@[j] == b@[j],
        decreases a@.len() - i,
    {
        if a[i] != b[i] {
            return false;
        }
        i = i + 1;
    }
    proof {
        assert(a@ =~= b@);
    }
    true
}

/// Two sequences of values have equal models when they agree element by element.
pub proof fn lemma_model_seq_equal(x: Seq<RespValue>, y: Seq<RespValue>)
    requires
        x.len() == y.len(),
        forall|j: int| 0 <= j < x.len() ==> model(#[trigger] x[j]) == model(y[j]),
    ensures
        model_seq(x) == model_seq(y),
{
    lemma_model_seq_len(x);
    lemma_model_seq_len(y);
    assert forall|j: int| 0 <= j < x.len() implies model_seq(x)[j] == model_seq(y)[j] by {
        lemma_model_seq_index(x, j);
        lemma_model_seq_index(y, j);
    }
    assert(model_seq(x) =~= model_seq(y));
}

/// An element of an array value is smaller than the array value.
pub proof fn lemma_item_decreases(v: RespValue, items: Vec<RespValue>, i: int)
    requires
        v == RespValue::Arrays(Some(items)),
        0 <= i < items@.len(),
    ensures
        decreases_to!(v => items@[i]),
{
    assert(decreases_to!(v => v->Arrays_0));
    assert(decreases_to!(v->Arrays_0 => v->Arrays_0->0));
    assert(decreases_to!(v->Arrays_0->0 => v->Arrays_0->0@));
    assert(decreases_to!(v->Arrays_0->0@ => v->Arrays_0->0@[i]));
}

/// Structural equality of two values, by their models.
pub fn values_equal(a: &RespValue, b: &RespValue) -> (r: bool)
    ensures
        r == (a@ == b@),
    decreases a,
{
    match a {
        RespValue::SimpleString(x) => match b {
            RespValue::SimpleString(y) => bytes_equal(x.as_slice(), y.as_slice()),
            _ => false,
        },
        RespValue::Error(x) => match b {
            RespValue::Error(y) => bytes_equal(x.as_slice(), y.as_slice()),
            _ => false,
        },
        RespValue::Integer(x) => match b {
            RespValue::Integer(y) => *x == *y,
            _ => false,
        },
        RespValue::BulkString(None) => match b {
            RespValue::BulkString(None) => true,
            _ => false,
        },
        RespValue::BulkString(Some(x)) => match b {
            RespValue::BulkString(Some(y)) => bytes_equal(x.as_slice(), y.as_slice()),
            _ => false,
        },
        RespValue::Arrays(None) => match b {
            RespValue::Arrays(None) => true,
            _ => false,
        },
        RespValue::Arrays(Some(x)) => match b {
            RespValue::Arrays(Some(y)) => {
                proof {
                    lemma_model_seq_len(x@);
                    lemma_model_seq_len(y@);
                }
                if x.len() != y.len() {
                    return false;
                }
                let mut i: usize = 0;
                while i < x.len()
                    invariant
                        i <= x@.len(),
                        x@.len() == y@.len(),
                        *a == RespValue::Arrays(Some(*x)),
                        *b == RespValue::Arrays(Some(*y)),
                        forall|j: int| 0 <= j < i ==> model(#[trigger] x@[j]) == model(y@[j]),
                    decreases x@.len() - i,
                {
                    proof {
                        lemma_item_decreases(*a, *x, i as int);
                    }
                    if !values_equal(&x[i], &y[i]) {
                        proof {
                            lemma_model_seq_index(x@, i as int);
                            lemma_model_seq_index(y@, i as int);
                            assert(model_seq(x@)[i as int] != model_seq(y@)[i as int]);
                        }
                        return false;
                    }
                    i = i + 1;
                }
                proof {
                    lemma_model_seq_equal(x@, y@);
                }
                true
            },
            _ => false,
        },
    }
}

impl RespValue {
    /// A deep copy of this value, with the same model.
    pub fn duplicate(&self) -> (r: RespValue)
        ensures
            r@ == self@,
        decreases self,
    {
        match self {
            RespValue::SimpleString(x) => RespValue::SimpleString(copy_bytes(x.as_slice())),
            RespValue::Error(x) => RespValue::Error(copy_bytes(x.as_slice())),
            RespValue::Integer(x) => RespValue::Integer(*x),
            RespValue::BulkString(None) => RespValue::BulkString(None),
            RespValue::BulkString(Some(x)) => RespValue::BulkString(Some(copy_bytes(x.as_slice()))),
            RespValue::Arrays(None) => RespValue::Arrays(None),
            RespValue::Arrays(Some(x)) => {
                let mut items: Vec<RespValue> = Vec::new();
                let mut i: usize = 0;
                while i < x.len()
                    invariant
                        i <= x@.len(),
                        items@.len() == i,
                        *self == RespValue::Arrays(Some(*x)),
                        forall|j: int| 0 <= j < i ==> model(#[trigger] items@[j]) == model(x@[j]),
                    decreases x@.len() - i,
                {
                    proof {
                        lemma_item_decreases(*self, *x, i as int);
                    }
                    let c = x[i].duplicate();
                    items.push(c);
                    i = i + 1;
                }
                proof {
                    lemma_model_seq_equal(items@, x@);
                }
                RespValue::Arrays(Some(items))
            },
        }
    }
}

impl Clone for RespValue {
    fn clone(&self) -> (r: RespValue) {
        self.duplicate()
    }
}

impl PartialEq for RespValue {
    fn eq(&self, other: &RespValue) -> (r: bool) {
        values_equal(self, other)
    }
}

impl vstd::std_specs::cmp::PartialEqSpecImpl for RespValue {
    open spec fn obeys_eq_spec() -> bool {
        true
    }

    open spec fn eq_spec(&self, other: &RespValue) -> bool {
        self@ == other@
    }
}

} // verus!
