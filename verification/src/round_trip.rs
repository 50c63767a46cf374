//! Parsing undoes serializing.

use vstd::prelude::*;
use vstd::utf8::*;
use crate::decimal::{decimal_of, decimal_value, digits_of, digits_value, is_number};
use crate::decimal::{spec_parse_i64, spec_parse_u64, DIGIT_ZERO, MINUS};
use crate::decimal::{lemma_decimal_round_trip, lemma_digits_of_is_number, lemma_digits_round_trip};
use crate::parser::{line_len, line_text, parse_at, parse_items, result_view, spec_parse};
use crate::parser::CodecError;
use crate::resp::{crlf, wire, wire_all, RespType, Value};
use crate::resp::{CR, DIGIT_ONE, LF, TAG_ARRAY, TAG_BULK, TAG_INT, TAG_STRING};
use crate::text::{lemma_encode_utf8_injective, lemma_line_feed_chars, no_line_feed, no_newline};

verus! {

/// The values that the parser reads back from what they are sent as: no
/// error, no simple string with a line feed in it, no bulk string or array
/// whose length is too large to be sent, and arrays of such values only.
pub open spec fn readable(v: Value) -> bool
    decreases v,
{
    match v {
        Value::BString(s) => encode_utf8(s).len() <= i64::MAX,
        Value::String(s) => no_newline(s),
        Value::Error(_) => false,
        Value::Int(_) => true,
        Value::Array(items) => items.len() <= u64::MAX && forall|i: int|
            0 <= i < items.len() ==> readable(#[trigger] items[i]),
        Value::Null => true,
    }
}

/// Whether the bytes `w` stand in `b` from `pos` on.
pub open spec fn holds(b: Seq<u8>, pos: int, w: Seq<u8>) -> bool {
    0 <= pos && pos + w.len() <= b.len() && b.subrange(pos, pos + w.len()) =~= w
}

/// Where two runs of bytes stand one behind the other, each stands in its
/// place.
proof fn lemma_holds_split(b: Seq<u8>, pos: int, x: Seq<u8>, y: Seq<u8>)
    requires
        holds(b, pos, x + y),
    ensures
        holds(b, pos, x),
        holds(b, pos + x.len(), y),
{
    let whole = b.subrange(pos, pos + (x + y).len());
    assert forall|j: int| 0 <= j < x.len() implies b.subrange(pos, pos + x.len())[j] == x[j] by {
        assert(whole[j] == (x + y)[j]);
    }
    assert forall|j: int| 0 <= j < y.len() implies b.subrange(
        pos + x.len(),
        pos + x.len() + y.len(),
    )[j] == y[j] by {
        let k = x.len() as int + j;
        assert(whole[k] == (x + y)[k]);
    }
}

/// A text without a line feed, followed by CR LF, is a line, and the line's
/// text.
proof fn lemma_line(b: Seq<u8>, pos: int, text: Seq<u8>)
    requires
        holds(b, pos, text + crlf()),
        no_line_feed(text),
    ensures
        line_len(b, pos) == text.len() + 2,
        line_text(b, pos) == text,
    decreases text.len(),
{
    let whole = b.subrange(pos, pos + (text + crlf()).len());
    lemma_line_len(b, pos, text);
    let end = pos + text.len() + 2;
    let n = text.len() as int;
    assert(b[end - 2] == CR) by {
        assert(whole[n] == (text + crlf())[n]);
    }
    assert(b[end - 1] == LF) by {
        assert(whole[n + 1] == (text + crlf())[n + 1]);
    }
    lemma_holds_split(b, pos, text, crlf());
    assert(b.subrange(pos, end - 2) =~= text);
}

/// The length of such a line.
proof fn lemma_line_len(b: Seq<u8>, pos: int, text: Seq<u8>)
    requires
        holds(b, pos, text + crlf()),
        no_line_feed(text),
    ensures
        line_len(b, pos) == text.len() + 2,
    decreases text.len(),
{
    let whole = b.subrange(pos, pos + (text + crlf()).len());
    if text.len() == 0 {
        assert(whole[0] == (text + crlf())[0]);
        assert(whole[1] == (text + crlf())[1]);
        assert(b[pos] == CR);
        assert(b[pos + 1] == LF);
        assert(line_len(b, pos + 1) == 1);
    } else {
        assert(whole[0] == (text + crlf())[0]);
        assert(b[pos] == text[0]);
        let rest = text.skip(1);
        assert(text + crlf() =~= seq![text[0]] + (rest + crlf()));
        lemma_holds_split(b, pos, seq![text[0]], rest + crlf());
        assert(no_line_feed(rest)) by {
            assert forall|i: int| 0 <= i < rest.len() implies #[trigger] rest[i] != LF by {
                assert(rest[i] == text[i + 1]);
            }
        }
        lemma_line_len(b, pos + 1, rest);
    }
}

/// The digits of a number hold no line feed and no sign, and are read as
/// that number.
proof fn lemma_digits_read(n: nat)
    ensures
        no_line_feed(digits_of(n)),
        decimal_value(digits_of(n)) == Some(n as int),
        digits_of(n).len() > 0,
        digits_of(n)[0] != MINUS,
{
    lemma_digits_of_is_number(n);
    lemma_digits_round_trip(n);
    let d = digits_of(n);
    assert(DIGIT_ZERO <= d[0]);
}

/// The decimal text of an integer holds no line feed and is read as that
/// integer.
proof fn lemma_decimal_read(i: i64)
    ensures
        no_line_feed(decimal_of(i as int)),
        spec_parse_i64(decimal_of(i as int)) == Some(i),
{
    lemma_decimal_round_trip(i as int);
    if i < 0 {
        lemma_digits_of_is_number((-i) as nat);
        let d = digits_of((-i) as nat);
        let t = decimal_of(i as int);
        assert forall|j: int| 0 <= j < t.len() implies #[trigger] t[j] != LF by {
            if j > 0 {
                assert(t[j] == d[j - 1]);
            }
        }
    } else {
        lemma_digits_of_is_number(i as nat);
    }
}

/// The bytes of a run of values: those of the first, then those of the
/// others.
proof fn lemma_wire_all_front(items: Seq<Value>)
    requires
        items.len() > 0,
    ensures
        wire_all(items) == wire(items[0]) + wire_all(items.skip(1)),
    decreases items.len(),
{
    if items.len() == 1 {
        assert(items.drop_last() =~= Seq::<Value>::empty());
        assert(items.skip(1) =~= Seq::<Value>::empty());
        assert(wire_all(items) =~= wire(items[0]) + wire_all(items.skip(1)));
    } else {
        lemma_wire_all_front(items.drop_last());
        assert(items.drop_last().skip(1) =~= items.skip(1).drop_last());
        assert(items.skip(1).last() == items.last());
        assert(items.drop_last()[0] == items[0]);
        assert(wire_all(items) =~= wire(items[0]) + wire_all(items.skip(1)));
    }
}

/// Where what a readable value is sent as stands in `b` at `pos`, the value
/// that starts at `pos` is that value, and takes those bytes.
pub proof fn lemma_parse_wire(b: Seq<u8>, pos: int, v: Value)
    requires
        readable(v),
        holds(b, pos, wire(v)),
    ensures
        parse_at(b, pos) == Ok::<(Value, nat), CodecError>((v, wire(v).len())),
    decreases v,
{
    broadcast use encode_utf8_valid_utf8, encode_utf8_decode_utf8;

    let w = wire(v);
    let whole = b.subrange(pos, pos + w.len());
    assert(whole[0] == w[0]);
    match v {
        Value::BString(s) => {
            let payload = encode_utf8(s);
            let digits = digits_of(payload.len());
            lemma_digits_read(payload.len());
            lemma_decimal_round_trip(payload.len() as int);
            assert(w =~= seq![TAG_BULK] + ((digits + crlf()) + (payload + crlf())));
            lemma_holds_split(b, pos, seq![TAG_BULK], (digits + crlf()) + (payload + crlf()));
            lemma_holds_split(b, pos + 1, digits + crlf(), payload + crlf());
            lemma_line(b, pos + 1, digits);
            let start = pos + 1 + digits.len() + 2;
            lemma_holds_split(b, start, payload, crlf());
            assert(crlf() =~= Seq::<u8>::empty() + crlf());
            lemma_line(b, start + payload.len(), Seq::<u8>::empty());
            assert(spec_parse_i64(digits) == Some(payload.len() as i64));
            assert(b.subrange(start, start + payload.len()) == payload);
        },
        Value::String(s) => {
            let text = encode_utf8(s);
            lemma_line_feed_chars(s);
            assert(w =~= seq![TAG_STRING] + (text + crlf()));
            lemma_holds_split(b, pos, seq![TAG_STRING], text + crlf());
            lemma_line(b, pos + 1, text);
        },
        Value::Error(_) => {},
        Value::Int(i) => {
            let text = decimal_of(i as int);
            lemma_decimal_read(i);
            assert(w =~= seq![TAG_INT] + (text + crlf()));
            lemma_holds_split(b, pos, seq![TAG_INT], text + crlf());
            lemma_line(b, pos + 1, text);
        },
        Value::Array(items) => {
            let digits = digits_of(items.len());
            lemma_digits_read(items.len());
            assert(w =~= seq![TAG_ARRAY] + ((digits + crlf()) + wire_all(items)));
            lemma_holds_split(b, pos, seq![TAG_ARRAY], (digits + crlf()) + wire_all(items));
            lemma_holds_split(b, pos + 1, digits + crlf(), wire_all(items));
            lemma_line(b, pos + 1, digits);
            assert(spec_parse_u64(digits) == Some(items.len() as u64));
            lemma_parse_wire_all(b, pos + 1 + digits.len() + 2, items);
        },
        Value::Null => {
            let text = seq![MINUS, DIGIT_ONE];
            assert(w =~= seq![TAG_BULK] + (text + crlf()));
            lemma_holds_split(b, pos, seq![TAG_BULK], text + crlf());
            lemma_line(b, pos + 1, text);
            assert(text.skip(1) =~= seq![DIGIT_ONE]);
            assert(seq![DIGIT_ONE].drop_last() =~= Seq::<u8>::empty());
            assert(digits_value(seq![DIGIT_ONE]) == 1) by {
                assert(digits_value(Seq::<u8>::empty()) == 0);
            }
            assert(is_number(text.skip(1)));
            assert(decimal_value(text) == Some(-1int));
        },
    }
}

/// Where what a run of readable values is sent as stands in `b` at `pos`,
/// the values that start at `pos` are those values, and take those bytes.
pub proof fn lemma_parse_wire_all(b: Seq<u8>, pos: int, items: Seq<Value>)
    requires
        forall|i: int| 0 <= i < items.len() ==> readable(#[trigger] items[i]),
        holds(b, pos, wire_all(items)),
    ensures
        parse_items(b, pos, items.len()) == Ok::<(Seq<Value>, nat), CodecError>(
            (items, wire_all(items).len()),
        ),
    decreases items,
{
    if items.len() == 0 {
        assert(items =~= Seq::<Value>::empty());
    } else {
        let first = items[0];
        let rest = items.skip(1);
        lemma_wire_all_front(items);
        lemma_holds_split(b, pos, wire(first), wire_all(rest));
        lemma_parse_wire(b, pos, first);
        assert forall|i: int| 0 <= i < rest.len() implies readable(#[trigger] rest[i]) by {
            assert(rest[i] == items[i + 1]);
        }
        lemma_parse_wire_all(b, pos + wire(first).len(), rest);
        assert(seq![first] + rest =~= items);
    }
}

/// A readable value is what the parser makes of the bytes that it is sent
/// as.
pub proof fn lemma_round_trip(v: Value)
    requires
        readable(v),
    ensures
        spec_parse(wire(v)) == Ok::<Value, CodecError>(v),
{
    assert(wire(v).subrange(0, wire(v).len() as int) =~= wire(v));
    lemma_parse_wire(wire(v), 0, v);
}

/// Parsing undoes serializing: where `text` is what `serialize` returns for
/// a readable value `v`, and `back` is what `parse_line` returns for `text`,
/// `back` is `v`.
pub proof fn lemma_parse_serialize(v: RespType, text: String, back: Result<RespType, CodecError>)
    requires
        readable(v@),
        encode_utf8(text@) == wire(v@),
        result_view(back) == spec_parse(encode_utf8(text@)),
    ensures
        back is Ok,
        back->Ok_0@ == v@,
{
    lemma_round_trip(v@);
}

/// Serializing is a function of the value: where `first` and `second` are
/// what `serialize` returns for two values that stand for the same value,
/// they are the same text.
pub proof fn lemma_serialize_deterministic(a: RespType, b: RespType, first: String, second: String)
    requires
        a@ == b@,
        encode_utf8(first@) == wire(a@),
        encode_utf8(second@) == wire(b@),
    ensures
        first@ == second@,
{
    lemma_encode_utf8_injective(first@, second@);
}

} // verus!
