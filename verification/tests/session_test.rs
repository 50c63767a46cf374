use rkey::{on_read, on_text, reply_for, Action, CodecError, CommandErr, CommandHandler};
use rkey::{RespType, Storage};

fn handler() -> CommandHandler {
    CommandHandler::new(Storage::new())
}

fn reply(h: &mut CommandHandler, frame: &[u8]) -> String {
    match on_read(h, frame) {
        Action::Reply(text) => text,
        other => panic!("expected a reply, got {:?}", other),
    }
}

#[test]
fn ping_end_to_end() {
    let mut h = handler();
    assert_eq!(reply(&mut h, b"*1\r\n$4\r\nPING\r\n"), "+PONG\r\n");
}

#[test]
fn set_then_get_end_to_end() {
    let mut h = handler();
    assert_eq!(reply(&mut h, b"*3\r\n$3\r\nSET\r\n$4\r\nkey1\r\n$3\r\nval\r\n"), "+OK\r\n");
    assert_eq!(reply(&mut h, b"*2\r\n$3\r\nGET\r\n$4\r\nkey1\r\n"), "$3\r\nval\r\n");
}

#[test]
fn get_of_absent_key_end_to_end() {
    let mut h = handler();
    assert_eq!(reply(&mut h, b"*2\r\n$3\r\nGET\r\n$4\r\nkey1\r\n"), "$-1\r\n");
}

#[test]
fn del_end_to_end() {
    let mut h = handler();
    for k in ["k1", "k2", "k3"] {
        let frame = format!("*3\r\n$3\r\nSET\r\n$2\r\n{}\r\n$1\r\nv\r\n", k);
        assert_eq!(reply(&mut h, frame.as_bytes()), "+OK\r\n");
    }
    let del = b"*4\r\n$3\r\nDEL\r\n$2\r\nk1\r\n$2\r\nk2\r\n$2\r\nk3\r\n";
    assert_eq!(reply(&mut h, del), ":3\r\n");
    assert_eq!(reply(&mut h, del), ":0\r\n");
}

#[test]
fn no_bytes_close_the_connection() {
    let mut h = handler();
    assert!(matches!(on_read(&mut h, b""), Action::Close));
}

#[test]
fn a_read_without_the_delimiter_is_dropped() {
    let mut h = handler();
    assert!(matches!(on_read(&mut h, b"*1\r\n$4\r\nPING"), Action::Discard));
    assert!(matches!(on_read(&mut h, b"*1\r\n$4\r\nPING\r"), Action::Discard));
    assert!(matches!(on_read(&mut h, b"*1\r\n$4\r\nPING\n"), Action::Discard));
    assert!(matches!(on_read(&mut h, b"\n"), Action::Discard));
    assert!(matches!(on_read(&mut h, b"x"), Action::Discard));
    // A dropped read changes nothing.
    assert!(matches!(
        on_read(&mut h, b"*3\r\n$3\r\nSET\r\n$1\r\nk\r\n$1\r\nv"),
        Action::Discard
    ));
    assert!(!h.storage().contains_key("k"));
}

#[test]
fn a_frame_that_does_not_decode_gets_no_reply() {
    let mut h = handler();
    assert!(matches!(on_read(&mut h, b"\r\n"), Action::Reject(CodecError::MalformedTag)));
    assert!(matches!(on_read(&mut h, b"?\r\n"), Action::Reject(CodecError::MalformedTag)));
    assert!(matches!(on_read(&mut h, b"*2\r\n:1\r\n"), Action::Reject(CodecError::Truncated)));
    assert!(matches!(on_read(&mut h, b"*x\r\n"), Action::Reject(CodecError::InvalidNumber)));
    assert!(matches!(
        on_read(&mut h, b"$1\r\n\xe2\x82\xac\r\n"),
        Action::Reject(CodecError::InvalidText)
    ));
    // The connection goes on.
    assert_eq!(reply(&mut h, b"*1\r\n$4\r\nPING\r\n"), "+PONG\r\n");
}

#[test]
fn a_refused_request_gets_an_error_reply() {
    let mut h = handler();
    assert_eq!(
        reply(&mut h, b"*1\r\n$3\r\nFOO\r\n"),
        "-Failed to exec command Unknown command: FOO\r\n"
    );
    assert_eq!(
        reply(&mut h, b"*2\r\n$3\r\nSET\r\n$1\r\nk\r\n"),
        "-Failed to exec command Invalid arguments: Expected 2. Got 1\r\n"
    );
    assert_eq!(
        reply(&mut h, b"+PING\r\n"),
        "-Failed to exec command Invalid arguments: No command provided\r\n"
    );
    assert_eq!(
        reply(&mut h, b"*1\r\n+PING\r\n"),
        "-Failed to exec command Invalid arguments: Invalid command\r\n"
    );
    assert_eq!(
        reply(&mut h, b"*0\r\n"),
        "-Failed to exec command Invalid arguments: No command provided\r\n"
    );
    assert_eq!(
        reply(&mut h, b"*3\r\n$3\r\nSET\r\n:1\r\n$1\r\nv\r\n"),
        "-Failed to exec command Invalid arguments: wrong key format\r\n"
    );
    // The connection goes on.
    assert_eq!(reply(&mut h, b"*1\r\n$4\r\nPING\r\n"), "+PONG\r\n");
}

#[test]
fn bytes_that_are_no_text_are_replaced() {
    let mut h = handler();
    // Each of the three bytes becomes a replacement character of three
    // bytes; the first of them is the name.
    assert_eq!(
        reply(&mut h, b"*1\r\n$3\r\n\xff\xfe\xfd\r\n"),
        "-Failed to exec command Unknown command: \u{fffd}\r\n"
    );
    assert_eq!(
        reply(&mut h, b"*2\r\n$3\r\nGET\r\n$3\r\n\xff\r\n"),
        "$-1\r\n"
    );
    assert_eq!(
        reply(&mut h, b"*3\r\n$3\r\nSET\r\n$3\r\n\xff\r\n$2\r\nok\r\n"),
        "+OK\r\n"
    );
    assert_eq!(h.storage().get("\u{fffd}"), Some(&"ok".to_string()));
}

#[test]
fn text_of_more_than_one_byte_a_character() {
    let mut h = handler();
    let set = "*3\r\n$3\r\nSET\r\n$5\r\n\u{20ac}\u{e9}\r\n$4\r\n\u{1f600}\r\n";
    assert_eq!(reply(&mut h, set.as_bytes()), "+OK\r\n");
    let get = "*2\r\n$3\r\nGET\r\n$5\r\n\u{20ac}\u{e9}\r\n";
    assert_eq!(reply(&mut h, get.as_bytes()), "$4\r\n\u{1f600}\r\n");
}

#[test]
fn on_text_answers_a_frame() {
    let mut h = handler();
    let whole = on_text(&mut h, "*1\r\n$4\r\nPING\r\n");
    assert!(matches!(whole, Action::Reply(t) if t == "+PONG\r\n"));
    // Text is taken as a frame whether or not it ends with the delimiter.
    let open = on_text(&mut h, "*1\r\n$4\r\nPING");
    assert!(matches!(open, Action::Reply(t) if t == "+PONG\r\n"));
    assert!(matches!(on_text(&mut h, ""), Action::Reject(CodecError::Truncated)));
    assert!(matches!(on_text(&mut h, "-ERR\r\n"), Action::Reject(CodecError::MalformedTag)));
}

#[test]
fn reply_for_wraps_errors() {
    assert_eq!(reply_for(Ok(RespType::Int(3))), RespType::Int(3));
    assert_eq!(reply_for(Ok(RespType::Null)), RespType::Null);
    assert_eq!(
        reply_for(Err(CommandErr::UnknownCommand("X".to_string()))),
        RespType::Error("Failed to exec command Unknown command: X".to_string())
    );
    assert_eq!(
        reply_for(Err(CommandErr::InvalidArgs("wrong key format".to_string()))),
        RespType::Error("Failed to exec command Invalid arguments: wrong key format".to_string())
    );
}

#[test]
fn replies_come_in_the_order_of_the_requests() {
    let mut h = handler();
    let mut replies = Vec::new();
    let frames: [&[u8]; 5] = [
        b"*3\r\n$3\r\nSET\r\n$1\r\na\r\n$1\r\n1\r\n",
        b"*2\r\n$3\r\nGET\r\n$1\r\na\r\n",
        b"*3\r\n$3\r\nSET\r\n$1\r\na\r\n$1\r\n2\r\n",
        b"*2\r\n$3\r\nGET\r\n$1\r\na\r\n",
        b"*2\r\n$3\r\nDEL\r\n$1\r\na\r\n",
    ];
    for frame in frames {
        replies.push(reply(&mut h, frame));
    }
    assert_eq!(replies, vec!["+OK\r\n", "$1\r\n1\r\n", "+OK\r\n", "$1\r\n2\r\n", ":1\r\n"]);
}
