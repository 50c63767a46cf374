//! The values of the wire format and their serialization.

use vstd::prelude::*;
use vstd::utf8::*;
use crate::decimal::{decimal_of, digits_of, lemma_digits_ascii, push_decimal, push_digits, MINUS};
use crate::text::{decode, lemma_ascii_is_utf8, push_all};

verus! {

/// Carriage return.
pub const CR: u8 = 13;

/// Line feed.
pub const LF: u8 = 10;

/// The tag of an array, `*`.
pub const TAG_ARRAY: u8 = 42;

/// The tag of a simple string, `+`.
pub const TAG_STRING: u8 = 43;

/// The tag of an error, `-`.
pub const TAG_ERR: u8 = 45;

/// The tag of an integer, `:`.
pub const TAG_INT: u8 = 58;

/// The tag of a bulk string and of null, `$`.
pub const TAG_BULK: u8 = 36;

/// ASCII `1`.
pub const DIGIT_ONE: u8 = 49;

/// A value of the wire format.
#[derive(Debug, PartialEq)]
pub enum RespType {
    /// A length-prefixed string.
    BString(String),
    /// A one-line string.
    String(String),
    /// A one-line error text.
    Error(String),
    /// A signed integer.
    Int(i64),
    /// A sequence of values, possibly nested.
    Array(Vec<RespType>),
    /// The absent bulk string.
    Null,
}

/// The mathematical value that a `RespType` stands for.
pub enum Value {
    BString(Seq<char>),
    String(Seq<char>),
    Error(Seq<char>),
    Int(i64),
    Array(Seq<Value>),
    Null,
}

impl View for RespType {
    type V = Value;

    open spec fn view(&self) -> Value {
        value_of(*self)
    }
}

/// The mathematical value that `r` stands for.
pub open spec fn value_of(r: RespType) -> Value
    decreases r,
{
    match r {
        RespType::BString(s) => Value::BString(s@),
        RespType::String(s) => Value::String(s@),
        RespType::Error(s) => Value::Error(s@),
        RespType::Int(i) => Value::Int(i),
        RespType::Array(items) => Value::Array(views(items@)),
        RespType::Null => Value::Null,
    }
}

/// The views of a run of values, one for one.
pub open spec fn views(items: Seq<RespType>) -> Seq<Value>
    decreases items,
{
    if items.len() == 0 {
        Seq::empty()
    } else {
        views(items.drop_last()).push(value_of(items.last()))
    }
}

/// The views of a run are as many as the run, and each is the view of the
/// item in its place.
pub proof fn lemma_views(items: Seq<RespType>)
    ensures
        views(items).len() == items.len(),
        forall|i: int| 0 <= i < items.len() ==> #[trigger] views(items)[i] == items[i]@,
    decreases items.len(),
{
    if items.len() > 0 {
        lemma_views(items.drop_last());
    }
}

/// The views of a run with one more item behind it.
pub proof fn lemma_views_push(items: Seq<RespType>, item: RespType)
    ensures
        views(items.push(item)) == views(items).push(item@),
{
    assert(items.push(item).drop_last() =~= items);
}

/// The line delimiter.
pub open spec fn crlf() -> Seq<u8> {
    seq![CR, LF]
}

/// The bytes that a value is sent as.
pub open spec fn wire(v: Value) -> Seq<u8>
    decreases v,
{
    match v {
        Value::BString(s) => seq![TAG_BULK] + digits_of(encode_utf8(s).len()) + crlf()
            + encode_utf8(s) + crlf(),
        Value::String(s) => seq![TAG_STRING] + encode_utf8(s) + crlf(),
        Value::Error(s) => seq![TAG_ERR] + encode_utf8(s) + crlf(),
        Value::Int(i) => seq![TAG_INT] + decimal_of(i as int) + crlf(),
        Value::Array(items) => seq![TAG_ARRAY] + digits_of(items.len()) + crlf() + wire_all(
            items,
        ),
        Value::Null => seq![TAG_BULK, MINUS, DIGIT_ONE, CR, LF],
    }
}

/// The bytes of a run of values, one after the other.
pub open spec fn wire_all(items: Seq<Value>) -> Seq<u8>
    decreases items,
{
    if items.len() == 0 {
        Seq::empty()
    } else {
        wire_all(items.drop_last()) + wire(items.last())
    }
}

/// The bytes of a run with one more value behind it.
pub proof fn lemma_wire_all_push(items: Seq<Value>, v: Value)
    ensures
        wire_all(items.push(v)) == wire_all(items) + wire(v),
{
    assert(items.push(v).drop_last() =~= items);
}

/// What a value is sent as is valid UTF-8.
pub proof fn lemma_wire_is_utf8(v: Value)
    ensures
        valid_utf8(wire(v)),
    decreases v,
{
    broadcast use valid_utf8_concat, encode_utf8_valid_utf8;

    lemma_ascii_is_utf8(crlf());
    match v {
        Value::BString(s) => {
            let n = digits_of(encode_utf8(s).len());
            lemma_ascii_is_utf8(seq![TAG_BULK]);
            lemma_digits_ascii(encode_utf8(s).len());
            lemma_ascii_is_utf8(n);
            assert(valid_utf8(seq![TAG_BULK] + n));
            assert(valid_utf8(seq![TAG_BULK] + n + crlf()));
            assert(valid_utf8(seq![TAG_BULK] + n + crlf() + encode_utf8(s)));
        },
        Value::String(s) => {
            lemma_ascii_is_utf8(seq![TAG_STRING]);
            assert(valid_utf8(seq![TAG_STRING] + encode_utf8(s)));
        },
        Value::Error(s) => {
            lemma_ascii_is_utf8(seq![TAG_ERR]);
            assert(valid_utf8(seq![TAG_ERR] + encode_utf8(s)));
        },
        Value::Int(i) => {
            lemma_ascii_is_utf8(seq![TAG_INT]);
            if i < 0 {
                lemma_ascii_is_utf8(seq![MINUS]);
                lemma_digits_ascii((-i) as nat);
                lemma_ascii_is_utf8(digits_of((-i) as nat));
            } else {
                lemma_digits_ascii(i as nat);
                lemma_ascii_is_utf8(digits_of(i as nat));
            }
            assert(valid_utf8(decimal_of(i as int)));
            assert(valid_utf8(seq![TAG_INT] + decimal_of(i as int)));
        },
        Value::Array(items) => {
            let n = digits_of(items.len());
            lemma_ascii_is_utf8(seq![TAG_ARRAY]);
            lemma_digits_ascii(items.len());
            lemma_ascii_is_utf8(n);
            lemma_wire_all_is_utf8(items);
            assert(valid_utf8(seq![TAG_ARRAY] + n));
            assert(valid_utf8(seq![TAG_ARRAY] + n + crlf()));
        },
        Value::Null => {
            lemma_ascii_is_utf8(seq![TAG_BULK, MINUS, DIGIT_ONE, CR, LF]);
        },
    }
}

/// What a run of values is sent as is valid UTF-8.
pub proof fn lemma_wire_all_is_utf8(items: Seq<Value>)
    ensures
        valid_utf8(wire_all(items)),
    decreases items,
{
    broadcast use valid_utf8_concat;

    if items.len() > 0 {
        lemma_wire_all_is_utf8(items.drop_last());
        lemma_wire_is_utf8(items.last());
    }
}

impl RespType {
    /// Appends the bytes that `self` is sent as to `out`.
    pub fn write_to(&self, out: &mut Vec<u8>)
        ensures
            final(out)@ == old(out)@ + wire(self@),
        decreases self,
    {
        match self {
            RespType::BString(s) => {
                let bytes = s.as_str().as_bytes();
                out.push(TAG_BULK);
                push_digits(out, bytes.len() as u64);
                out.push(CR);
                out.push(LF);
                push_all(out, bytes);
                out.push(CR);
                out.push(LF);
                assert(final(out)@ =~= old(out)@ + wire(self@));
            },
            RespType::String(s) => {
                out.push(TAG_STRING);
                push_all(out, s.as_str().as_bytes());
                out.push(CR);
                out.push(LF);
                assert(final(out)@ =~= old(out)@ + wire(self@));
            },
            RespType::Error(s) => {
                out.push(TAG_ERR);
                push_all(out, s.as_str().as_bytes());
                out.push(CR);
                out.push(LF);
                assert(final(out)@ =~= old(out)@ + wire(self@));
            },
            RespType::Int(i) => {
                out.push(TAG_INT);
                push_decimal(out, *i);
                out.push(CR);
                out.push(LF);
                assert(final(out)@ =~= old(out)@ + wire(self@));
            },
            RespType::Array(items) => {
                out.push(TAG_ARRAY);
                push_digits(out, items.len() as u64);
                out.push(CR);
                out.push(LF);
                let ghost head = out@;
                let ghost all = views(items@);
                proof {
                    lemma_views(items@);
                }
                assert(head =~= old(out)@ + seq![TAG_ARRAY] + digits_of(items@.len()) + crlf());
                let mut i: usize = 0;
                while i < items.len()
                    invariant
                        0 <= i <= items@.len(),
                        *self == RespType::Array(*items),
                        all == views(items@),
                        all.len() == items@.len(),
                        forall|j: int| 0 <= j < all.len() ==> #[trigger] all[j] == items@[j]@,
                        out@ == head + wire_all(all.take(i as int)),
                    decreases items@.len() - i,
                {
                    assert(decreases_to!(*self => self->Array_0));
                    assert(decreases_to!(*items => items[i as int]));
                    items[i].write_to(out);
                    proof {
                        lemma_wire_all_push(all.take(i as int), all[i as int]);
                        assert(all.take(i as int).push(all[i as int]) =~= all.take(i + 1));
                    }
                    i += 1;
                }
                assert(all.take(i as int) =~= all);
                assert(final(out)@ =~= old(out)@ + wire(self@));
            },
            RespType::Null => {
                out.push(TAG_BULK);
                out.push(MINUS);
                out.push(DIGIT_ONE);
                out.push(CR);
                out.push(LF);
                assert(final(out)@ =~= old(out)@ + wire(self@));
            },
        }
    }

    /// The bytes that `self` is sent as.
    pub fn to_bytes(&self) -> (r: Vec<u8>)
        ensures
            r@ == wire(self@),
    {
        let mut out: Vec<u8> = Vec::new();
        self.write_to(&mut out);
        assert(out@ =~= wire(self@));
        out
    }

    /// The text that `self` is sent as: its tag, then its length or count
    /// where it has one, its payload and the line delimiter; an array is
    /// followed by its items, each in the same form.
    pub fn serialize(&self) -> (r: String)
        ensures
            encode_utf8(r@) == wire(self@),
            r@ == decode_utf8(wire(self@)),
    {
        let out = self.to_bytes();
        proof {
            lemma_wire_is_utf8(self@);
        }
        match decode(out) {
            Some(s) => {
                proof {
                    decode_utf8_encode_utf8(wire(self@));
                }
                s
            },
            None => vstd::pervasive::unreached(),
        }
    }
}

} // verus!
