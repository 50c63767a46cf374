//! The parser of the wire format: one forward pass over a whole frame, with
//! an explicit stack of the arrays that are still open.

use vstd::prelude::*;
use vstd::slice::{slice_subrange, slice_to_vec};
use vstd::string::*;
use vstd::utf8::*;
use crate::decimal::{parse_i64, parse_u64, spec_parse_i64, spec_parse_u64};
use crate::resp::{lemma_views, lemma_views_push, views, RespType, Value};
use crate::resp::{CR, LF, TAG_ARRAY, TAG_BULK, TAG_INT, TAG_STRING};
use crate::text::decode;

verus! {

/// Why a frame could not be decoded.
#[derive(Debug, PartialEq, Eq, Clone, Copy, Structural)]
pub enum CodecError {
    /// A value starts with a byte that is no known tag.
    MalformedTag,
    /// The input ends where a value, or the payload of a bulk string, is
    /// still owed.
    Truncated,
    /// A count, a length or an integer is no decimal number, or is out of
    /// range.
    InvalidNumber,
    /// The text of a string is not valid UTF-8.
    InvalidText,
}

/// The length of the line that starts at `pos`: up to and with its first
/// line feed, or up to the end of the input where there is none.
pub open spec fn line_len(b: Seq<u8>, pos: int) -> nat
    decreases b.len() - pos,
{
    if pos < 0 || pos >= b.len() {
        0
    } else if b[pos] == LF {
        1
    } else {
        1 + line_len(b, pos + 1)
    }
}

/// The text of the line that starts at `pos`: the line without the CR LF at
/// its end, where it ends in one.
pub open spec fn line_text(b: Seq<u8>, pos: int) -> Seq<u8> {
    let end = pos + line_len(b, pos);
    if end - pos >= 2 && b[end - 2] == CR && b[end - 1] == LF {
        b.subrange(pos, end - 2)
    } else {
        b.subrange(pos, end)
    }
}

/// How much of `b` is left from `pos` on.
pub open spec fn remaining(b: Seq<u8>, pos: int) -> nat {
    if pos <= b.len() {
        (b.len() - pos) as nat
    } else {
        0
    }
}

/// The value that starts at `pos`, with the number of bytes that it takes.
///
/// The byte at `pos` is the tag and the line behind it the header. `*` has
/// a count and is followed by that many values; `+` has the text of a
/// string; `$` has a length, `-1` for null, and is followed by that many
/// bytes and the rest of their line; `:` has a signed number.
pub open spec fn parse_at(b: Seq<u8>, pos: int) -> Result<(Value, nat), CodecError>
    decreases remaining(b, pos), 0nat,
{
    if pos < 0 || pos >= b.len() {
        Err(CodecError::Truncated)
    } else {
        let text = line_text(b, pos + 1);
        let head = 1 + line_len(b, pos + 1);
        if b[pos] == TAG_ARRAY {
            match spec_parse_u64(text) {
                None => Err(CodecError::InvalidNumber),
                Some(n) => match parse_items(b, pos + head, n as nat) {
                    Err(e) => Err(e),
                    Ok((items, used)) => Ok((Value::Array(items), head + used)),
                },
            }
        } else if b[pos] == TAG_STRING {
            if valid_utf8(text) {
                Ok((Value::String(decode_utf8(text)), head))
            } else {
                Err(CodecError::InvalidText)
            }
        } else if b[pos] == TAG_BULK {
            match spec_parse_i64(text) {
                None => Err(CodecError::InvalidNumber),
                Some(n) => if n == -1 {
                    Ok((Value::Null, head))
                } else if n < 0 {
                    Err(CodecError::InvalidNumber)
                } else if pos + head + n > b.len() {
                    Err(CodecError::Truncated)
                } else {
                    let payload = b.subrange(pos + head, pos + head + n);
                    if valid_utf8(payload) {
                        Ok(
                            (
                                Value::BString(decode_utf8(payload)),
                                head + n as nat + line_len(b, pos + head + n),
                            ),
                        )
                    } else {
                        Err(CodecError::InvalidText)
                    }
                },
            }
        } else if b[pos] == TAG_INT {
            match spec_parse_i64(text) {
                None => Err(CodecError::InvalidNumber),
                Some(i) => Ok((Value::Int(i), head)),
            }
        } else {
            Err(CodecError::MalformedTag)
        }
    }
}

/// The `n` values that start at `pos`, one behind the other, with the
/// number of bytes that they take together.
pub open spec fn parse_items(b: Seq<u8>, pos: int, n: nat) -> Result<(Seq<Value>, nat), CodecError>
    decreases remaining(b, pos), n + 1,
{
    if n == 0 {
        Ok((Seq::empty(), 0))
    } else {
        match parse_at(b, pos) {
            Err(e) => Err(e),
            Ok((first, used)) => match parse_items(b, pos + used, (n - 1) as nat) {
                Err(e) => Err(e),
                Ok((rest, more)) => Ok((seq![first] + rest, used + more)),
            },
        }
    }
}

/// What a frame decodes to: the value that starts at its first byte.
/// Whatever follows that value is not looked at.
pub open spec fn spec_parse(b: Seq<u8>) -> Result<Value, CodecError> {
    match parse_at(b, 0) {
        Ok((v, _)) => Ok(v),
        Err(e) => Err(e),
    }
}

/// A result of the parser, with the value taken by its view.
pub open spec fn result_view(r: Result<RespType, CodecError>) -> Result<Value, CodecError> {
    match r {
        Ok(v) => Ok(v@),
        Err(e) => Err(e),
    }
}

/// Where `n` values are read one behind the other, there are `n` of them.
pub proof fn lemma_items_count(b: Seq<u8>, pos: int, n: nat)
    requires
        parse_items(b, pos, n) is Ok,
    ensures
        parse_items(b, pos, n)->Ok_0.0.len() == n,
    decreases n,
{
    if n > 0 {
        let used = parse_at(b, pos)->Ok_0.1;
        lemma_items_count(b, pos + used, (n - 1) as nat);
    }
}

/// An array that is read holds as many items as its header counts: no
/// array comes out of the parser with fewer or more.
pub proof fn lemma_array_count(b: Seq<u8>, pos: int)
    requires
        parse_at(b, pos) is Ok,
        parse_at(b, pos)->Ok_0.0 is Array,
    ensures
        b[pos] == TAG_ARRAY,
        spec_parse_u64(line_text(b, pos + 1)) == Some(
            parse_at(b, pos)->Ok_0.0->Array_0.len() as u64,
        ),
{
    let n = spec_parse_u64(line_text(b, pos + 1))->0;
    lemma_items_count(b, pos + 1 + line_len(b, pos + 1), n as nat);
}

/// An array that is still open: the count that its header gave and the
/// items read so far.
struct Frame {
    expected: u64,
    items: Vec<RespType>,
}

/// An open array, as the values it stands for.
struct Pending {
    expected: nat,
    items: Seq<Value>,
}

/// What the header of a value gave: a value, or an array to open.
enum Step {
    Open(u64),
    Value(RespType),
}

/// The open array that a frame stands for.
spec fn pending(f: Frame) -> Pending {
    Pending { expected: f.expected as nat, items: views(f.items@) }
}

/// The open arrays that a stack of frames stands for, innermost last.
spec fn pendings(stack: Seq<Frame>) -> Seq<Pending> {
    Seq::new(stack.len(), |i: int| pending(stack[i]))
}

/// Whether every array of the stack still lacks an item.
spec fn all_open(stack: Seq<Pending>) -> bool {
    forall|i: int| 0 <= i < stack.len() ==> (#[trigger] stack[i]).items.len() < stack[i].expected
}

/// An open array with one more item.
spec fn grown(p: Pending, v: Value) -> Pending {
    Pending { expected: p.expected, items: p.items.push(v) }
}

/// What the input comes to where the innermost open array goes on at `pos`.
spec fn finish(b: Seq<u8>, stack: Seq<Pending>, pos: int) -> Result<Value, CodecError>
    decreases stack.len(), 0nat,
{
    if stack.len() == 0 {
        Err(CodecError::Truncated)
    } else {
        let top = stack.last();
        match parse_items(b, pos, (top.expected - top.items.len()) as nat) {
            Err(e) => Err(e),
            Ok((rest, used)) => deliver(
                b,
                stack.drop_last(),
                Value::Array(top.items + rest),
                pos + used,
            ),
        }
    }
}

/// What the input comes to once `v` has been read and `pos` is the place
/// behind it.
spec fn deliver(b: Seq<u8>, stack: Seq<Pending>, v: Value, pos: int) -> Result<Value, CodecError>
    decreases stack.len(), 1nat,
{
    if stack.len() == 0 {
        Ok(v)
    } else {
        finish(b, stack.drop_last().push(grown(stack.last(), v)), pos)
    }
}

/// Hands `v` to the innermost open array and closes every array that this
/// completes: the stack that is left, and the whole value where none is.
spec fn spec_settle(stack: Seq<Pending>, v: Value) -> (Seq<Pending>, Option<Value>)
    decreases stack.len(),
{
    if stack.len() == 0 {
        (stack, Some(v))
    } else {
        let top = grown(stack.last(), v);
        if top.items.len() == top.expected {
            spec_settle(stack.drop_last(), Value::Array(top.items))
        } else {
            (stack.drop_last().push(top), None)
        }
    }
}

/// Where the parser stands before it reads the value at `pos`.
spec fn on_track(b: Seq<u8>, stack: Seq<Pending>, pos: int) -> bool {
    &&& all_open(stack)
    &&& stack.len() == 0 ==> pos == 0
    &&& stack.len() > 0 ==> spec_parse(b) == finish(b, stack, pos)
}

/// One value more: the input comes to what it comes to once the value at
/// `pos` is delivered, and fails as that value fails.
proof fn lemma_step(b: Seq<u8>, stack: Seq<Pending>, pos: int)
    requires
        on_track(b, stack, pos),
    ensures
        match parse_at(b, pos) {
            Err(e) => spec_parse(b) == Err::<Value, CodecError>(e),
            Ok((v, used)) => spec_parse(b) == deliver(b, stack, v, pos + used),
        },
{
    if stack.len() > 0 {
        let top = stack.last();
        let k = (top.expected - top.items.len()) as nat;
        assert(k >= 1);
        match parse_at(b, pos) {
            Err(e) => {},
            Ok((v, used)) => {
                let next = stack.drop_last().push(grown(top, v));
                assert(next.last() == grown(top, v));
                assert(next.drop_last() =~= stack.drop_last());
                match parse_items(b, pos + used, (k - 1) as nat) {
                    Err(e) => {},
                    Ok((rest, more)) => {
                        assert(top.items + (seq![v] + rest) =~= top.items.push(v) + rest);
                    },
                }
            },
        }
    }
}

/// An array header with a count above zero opens an array: the input comes
/// to what it comes to with that array on the stack, read from behind the
/// header.
proof fn lemma_open(b: Seq<u8>, stack: Seq<Pending>, pos: int, n: u64)
    requires
        on_track(b, stack, pos),
        0 <= pos < b.len(),
        b[pos] == TAG_ARRAY,
        spec_parse_u64(line_text(b, pos + 1)) == Some(n),
        n >= 1,
    ensures
        on_track(
            b,
            stack.push(Pending { expected: n as nat, items: Seq::empty() }),
            pos + 1 + line_len(b, pos + 1),
        ),
{
    let fresh = Pending { expected: n as nat, items: Seq::empty() };
    let next = stack.push(fresh);
    let start = pos + 1 + line_len(b, pos + 1);
    lemma_step(b, stack, pos);
    assert(next.last() == fresh);
    assert(next.drop_last() =~= stack);
    match parse_items(b, start, n as nat) {
        Err(e) => {},
        Ok((items, used)) => {
            assert(fresh.items + items =~= items);
        },
    }
}

/// Delivering a value is settling it: the whole value where no array stays
/// open, and else what the stack that is left comes to.
proof fn lemma_deliver(b: Seq<u8>, stack: Seq<Pending>, v: Value, pos: int)
    requires
        all_open(stack),
    ensures
        deliver(b, stack, v, pos) == (match spec_settle(stack, v) {
            (_, Some(whole)) => Ok(whole),
            (left, None) => finish(b, left, pos),
        }),
        all_open(spec_settle(stack, v).0),
        spec_settle(stack, v).1 is None ==> spec_settle(stack, v).0.len() > 0,
    decreases stack.len(),
{
    if stack.len() > 0 {
        let top = grown(stack.last(), v);
        let next = stack.drop_last().push(top);
        assert(next.last() == top);
        assert(next.drop_last() =~= stack.drop_last());
        if top.items.len() == top.expected {
            assert(top.items + Seq::<Value>::empty() =~= top.items);
            lemma_deliver(b, stack.drop_last(), Value::Array(top.items), pos);
        }
    }
}

/// The place behind the line that starts at `pos`.
fn line_end(b: &[u8], pos: usize) -> (end: usize)
    requires
        pos <= b@.len(),
    ensures
        end == pos + line_len(b@, pos as int),
        end <= b@.len(),
{
    let mut i: usize = pos;
    while i < b.len()
        invariant
            pos <= i <= b@.len(),
            line_len(b@, pos as int) == (i - pos) + line_len(b@, i as int),
        decreases b@.len() - i,
    {
        if b[i] == LF {
            return i + 1;
        }
        i += 1;
    }
    i
}

/// The text of the line from `pos` to `end`.
fn text_of(b: &[u8], pos: usize, end: usize) -> (text: &[u8])
    requires
        pos <= b@.len(),
        end == pos + line_len(b@, pos as int),
        end <= b@.len(),
    ensures
        text@ == line_text(b@, pos as int),
{
    if end - pos >= 2 && b[end - 2] == CR && b[end - 1] == LF {
        slice_subrange(b, pos, end - 2)
    } else {
        slice_subrange(b, pos, end)
    }
}

/// Reads the tag at `pos` and what belongs to it: a whole value that is no
/// array with items, or the count of an array to open.
fn read_head(b: &[u8], pos: usize) -> (r: Result<(Step, usize), CodecError>)
    requires
        pos < b@.len(),
    ensures
        match r {
            Err(e) => parse_at(b@, pos as int) == Err::<(Value, nat), CodecError>(e),
            Ok((Step::Value(v), next)) => {
                &&& pos < next <= b@.len()
                &&& parse_at(b@, pos as int) == Ok::<(Value, nat), CodecError>(
                    (v@, (next - pos) as nat),
                )
            },
            Ok((Step::Open(n), next)) => {
                &&& pos < next <= b@.len()
                &&& next == pos + 1 + line_len(b@, pos + 1)
                &&& b@[pos as int] == TAG_ARRAY
                &&& spec_parse_u64(line_text(b@, pos + 1)) == Some(n)
                &&& n >= 1
            },
        },
{
    let tag: u8 = b[pos];
    let end: usize = line_end(b, pos + 1);
    let text: &[u8] = text_of(b, pos + 1, end);
    if tag == TAG_ARRAY {
        match parse_u64(text) {
            None => Err(CodecError::InvalidNumber),
            Some(n) => {
                if n == 0 {
                    let items: Vec<RespType> = Vec::new();
                    assert(views(items@) =~= Seq::<Value>::empty());
                    Ok((Step::Value(RespType::Array(items)), end))
                } else {
                    Ok((Step::Open(n), end))
                }
            },
        }
    } else if tag == TAG_STRING {
        match decode(slice_to_vec(text)) {
            Some(s) => Ok((Step::Value(RespType::String(s)), end)),
            None => Err(CodecError::InvalidText),
        }
    } else if tag == TAG_BULK {
        match parse_i64(text) {
            None => Err(CodecError::InvalidNumber),
            Some(n) => {
                if n == -1 {
                    Ok((Step::Value(RespType::Null), end))
                } else if n < 0 {
                    Err(CodecError::InvalidNumber)
                } else if n as u64 > (b.len() - end) as u64 {
                    Err(CodecError::Truncated)
                } else {
                    let stop: usize = end + n as usize;
                    match decode(slice_to_vec(slice_subrange(b, end, stop))) {
                        Some(s) => Ok((Step::Value(RespType::BString(s)), line_end(b, stop))),
                        None => Err(CodecError::InvalidText),
                    }
                }
            },
        }
    } else if tag == TAG_INT {
        match parse_i64(text) {
            None => Err(CodecError::InvalidNumber),
            Some(i) => Ok((Step::Value(RespType::Int(i)), end)),
        }
    } else {
        Err(CodecError::MalformedTag)
    }
}

/// Hands `v` to the innermost open array and closes every array that this
/// completes. Returns the whole value once no array is open.
fn settle(stack: &mut Vec<Frame>, v: RespType) -> (r: Option<RespType>)
    requires
        all_open(pendings(old(stack)@)),
    ensures
        pendings(final(stack)@) == spec_settle(pendings(old(stack)@), v@).0,
        match r {
            Some(whole) => spec_settle(pendings(old(stack)@), v@).1 == Some(whole@),
            None => spec_settle(pendings(old(stack)@), v@).1 is None,
        },
{
    let mut cur = v;
    loop
        invariant
            all_open(pendings(stack@)),
            spec_settle(pendings(old(stack)@), v@) == spec_settle(pendings(stack@), cur@),
        decreases stack@.len(),
    {
        let ghost before = pendings(stack@);
        match stack.pop() {
            None => {
                assert(pendings(stack@) =~= before);
                return Some(cur);
            },
            Some(frame) => {
                let mut top = frame;
                let ghost was = pending(top);
                assert(was == before.last());
                assert(pendings(stack@) =~= before.drop_last());
                proof {
                    lemma_views_push(top.items@, cur);
                }
                top.items.push(cur);
                assert(pending(top) == grown(was, cur@));
                if top.items.len() as u64 == top.expected {
                    proof {
                        lemma_views(top.items@);
                    }
                    cur = RespType::Array(top.items);
                } else {
                    proof {
                        lemma_views(top.items@);
                    }
                    stack.push(top);
                    assert(pendings(stack@) =~= before.drop_last().push(grown(was, cur@)));
                    return None;
                }
            },
        }
    }
}

/// The parser of the wire format.
pub struct Resp {}

impl Resp {
    /// A parser. It keeps nothing between frames.
    pub fn new() -> (r: Self) {
        Resp {  }
    }

    /// Decodes the value at the start of the frame `s`.
    ///
    /// Returns that value where the frame holds one whole value at its
    /// start, and else the first fault met on the way through it.
    pub fn parse_line(&self, s: &str) -> (r: Result<RespType, CodecError>)
        ensures
            result_view(r) == spec_parse(s.spec_bytes()),
    {
        self.parse_bytes(s.as_bytes())
    }

    /// Decodes the value at the start of the frame `b`.
    ///
    /// Arrays are built on an explicit stack: a header opens an array, each
    /// value read goes to the innermost open array, and an array that has
    /// its count of items is closed and goes to the one around it.
    pub fn parse_bytes(&self, b: &[u8]) -> (r: Result<RespType, CodecError>)
        ensures
            result_view(r) == spec_parse(b@),
    {
        let mut stack: Vec<Frame> = Vec::new();
        let mut pos: usize = 0;
        assert(pendings(stack@) =~= Seq::<Pending>::empty());
        loop
            invariant
                pos <= b@.len(),
                on_track(b@, pendings(stack@), pos as int),
            decreases b@.len() - pos,
        {
            proof {
                lemma_step(b@, pendings(stack@), pos as int);
            }
            if pos >= b.len() {
                return Err(CodecError::Truncated);
            }
            match read_head(b, pos) {
                Err(e) => {
                    return Err(e);
                },
                Ok((Step::Open(n), next)) => {
                    proof {
                        lemma_open(b@, pendings(stack@), pos as int, n);
                    }
                    let ghost before = pendings(stack@);
                    let items: Vec<RespType> = Vec::new();
                    assert(views(items@) =~= Seq::<Value>::empty());
                    stack.push(Frame { expected: n, items });
                    assert(pendings(stack@) =~= before.push(
                        Pending { expected: n as nat, items: Seq::empty() },
                    ));
                    pos = next;
                },
                Ok((Step::Value(v), next)) => {
                    proof {
                        lemma_deliver(b@, pendings(stack@), v@, next as int);
                    }
                    match settle(&mut stack, v) {
                        Some(whole) => {
                            return Ok(whole);
                        },
                        None => {
                            pos = next;
                        },
                    }
                },
            }
        }
    }
}

} // verus!
