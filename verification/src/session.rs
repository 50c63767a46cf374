//! One step of a connection: from the bytes of one read to what is sent
//! back.

use vstd::prelude::*;
use vstd::string::*;
use vstd::utf8::*;
use crate::command::{fault_message, reply_view, spec_handle};
use crate::command::{CommandErr, CommandFault, CommandHandler};
use crate::parser::{result_view, spec_parse, CodecError, Resp};
use crate::resp::{wire, RespType, Value, CR, LF};

verus! {

/// What a connection does after a read.
#[derive(Debug)]
pub enum Action {
    /// The peer has closed: the connection ends.
    Close,
    /// The bytes do not end a frame: they are dropped and nothing is sent.
    Discard,
    /// The frame could not be decoded: nothing is sent.
    Reject(CodecError),
    /// The text to send back.
    Reply(String),
}

/// An `Action`, with a reply taken as the bytes that go out.
pub enum Outgoing {
    Close,
    Discard,
    Reject(CodecError),
    Reply(Seq<u8>),
}

impl View for Action {
    type V = Outgoing;

    open spec fn view(&self) -> Outgoing {
        match self {
            Action::Close => Outgoing::Close,
            Action::Discard => Outgoing::Discard,
            Action::Reject(e) => Outgoing::Reject(*e),
            Action::Reply(text) => Outgoing::Reply(encode_utf8(text@)),
        }
    }
}

/// The text that `String::from_utf8_lossy` makes of bytes.
pub uninterp spec fn lossy_text(bytes: Seq<u8>) -> Seq<char>;

/// `String::from_utf8_lossy`: the text of `bytes`, with a replacement
/// character for what is not valid UTF-8. Trusted to depend on the bytes
/// alone and to decode valid UTF-8 as it stands.
#[verifier::external_body]
fn string_from_utf8_lossy(bytes: &[u8]) -> (r: String)
    ensures
        r@ == lossy_text(bytes@),
        valid_utf8(bytes@) ==> r@ == decode_utf8(bytes@),
{
    String::from_utf8_lossy(bytes).into_owned()
}

/// Whether `b` ends with CR LF.
pub open spec fn ends_frame(b: Seq<u8>) -> bool {
    b.len() >= 2 && b[b.len() - 2] == CR && b[b.len() - 1] == LF
}

/// The value sent back for what the dispatcher returned: the reply itself,
/// or an error value that holds the fault's description.
pub open spec fn answer(r: Result<Value, CommandFault>) -> Value {
    match r {
        Ok(v) => v,
        Err(f) => Value::Error("Failed to exec command "@ + fault_message(f)),
    }
}

/// What a frame given as text comes to on a store: the action, and the
/// store behind it.
pub open spec fn spec_on_text(text: Seq<char>, store: Map<Seq<char>, Seq<char>>) -> (
    Outgoing,
    Map<Seq<char>, Seq<char>>,
) {
    match spec_parse(encode_utf8(text)) {
        Err(e) => (Outgoing::Reject(e), store),
        Ok(req) => (
            Outgoing::Reply(wire(answer(spec_handle(req, store).0))),
            spec_handle(req, store).1,
        ),
    }
}

/// What the bytes of one read come to on a store: the action, and the
/// store behind it.
pub open spec fn spec_on_read(buf: Seq<u8>, store: Map<Seq<char>, Seq<char>>) -> (
    Outgoing,
    Map<Seq<char>, Seq<char>>,
) {
    if buf.len() == 0 {
        (Outgoing::Close, store)
    } else if !ends_frame(buf) {
        (Outgoing::Discard, store)
    } else {
        spec_on_text(lossy_text(buf), store)
    }
}

/// The value sent back for what the dispatcher returned.
pub fn reply_for(r: Result<RespType, CommandErr>) -> (v: RespType)
    ensures
        v@ == answer(reply_view(r)),
{
    match r {
        Ok(v) => v,
        Err(e) => {
            let mut line = "Failed to exec command ".to_owned();
            line.append(e.message().as_str());
            RespType::Error(line)
        },
    }
}

/// Decodes the frame `text`, carries the request out and returns what to
/// send back. A frame that cannot be decoded is rejected and gets no reply;
/// a request that the dispatcher refuses gets an error value as its reply.
pub fn on_text(handler: &mut CommandHandler, text: &str) -> (a: Action)
    ensures
        (a@, final(handler)@) == spec_on_text(text@, old(handler)@),
{
    match Resp::new().parse_line(text) {
        Err(e) => Action::Reject(e),
        Ok(parsed) => {
            let res = handler.handle_cmd(parsed);
            Action::Reply(reply_for(res).serialize())
        },
    }
}

/// Takes the bytes of one read. No bytes mean that the peer has closed.
/// Bytes that do not end with CR LF are dropped. Else the bytes are a
/// frame, which is read as text and answered as `on_text` does; bytes
/// that are valid UTF-8 are read as the text that they encode.
pub fn on_read(handler: &mut CommandHandler, buf: &[u8]) -> (a: Action)
    ensures
        (a@, final(handler)@) == spec_on_read(buf@, old(handler)@),
        ends_frame(buf@) && valid_utf8(buf@) ==> (a@, final(handler)@) == spec_on_text(
            decode_utf8(buf@),
            old(handler)@,
        ),
{
    let n: usize = buf.len();
    if n == 0 {
        Action::Close
    } else if n < 2 || buf[n - 2] != CR || buf[n - 1] != LF {
        Action::Discard
    } else {
        let text = string_from_utf8_lossy(buf);
        on_text(handler, text.as_str())
    }
}

} // verus!
