use rkey::{CodecError, Resp, RespType};

fn parse(s: &str) -> Result<RespType, CodecError> {
    Resp::new().parse_line(s)
}

fn bulk(s: &str) -> RespType {
    RespType::BString(s.to_string())
}

fn simple(s: &str) -> RespType {
    RespType::String(s.to_string())
}

#[test]
fn empty_input_is_truncated() {
    assert_eq!(parse(""), Err(CodecError::Truncated));
}

#[test]
fn unknown_tag_is_malformed() {
    assert_eq!(parse("?what\r\n"), Err(CodecError::MalformedTag));
    assert_eq!(parse("hello\r\n"), Err(CodecError::MalformedTag));
}

#[test]
fn error_tag_is_not_parsed() {
    assert_eq!(parse("-oops\r\n"), Err(CodecError::MalformedTag));
}

#[test]
fn unknown_tag_inside_array_drops_what_was_read() {
    assert_eq!(parse("*2\r\n:1\r\n!2\r\n"), Err(CodecError::MalformedTag));
    assert_eq!(parse("*2\r\n*1\r\n:1\r\n%\r\n"), Err(CodecError::MalformedTag));
}

#[test]
fn truncated_array_is_an_error() {
    assert_eq!(parse("*2\r\n:1\r\n"), Err(CodecError::Truncated));
    assert_eq!(parse("*1\r\n"), Err(CodecError::Truncated));
    assert_eq!(parse("*2\r\n*2\r\n:1\r\n:2\r\n"), Err(CodecError::Truncated));
    assert_eq!(parse("*3\r\n*1\r\n*1\r\n"), Err(CodecError::Truncated));
}

#[test]
fn truncated_bulk_string_is_an_error() {
    assert_eq!(parse("$5\r\nhel"), Err(CodecError::Truncated));
    assert_eq!(parse("$1\r\n"), Err(CodecError::Truncated));
    assert_eq!(parse("*1\r\n$10\r\nshort\r\n"), Err(CodecError::Truncated));
}

#[test]
fn bad_numbers_are_errors() {
    assert_eq!(parse(":\r\n"), Err(CodecError::InvalidNumber));
    assert_eq!(parse(":abc\r\n"), Err(CodecError::InvalidNumber));
    assert_eq!(parse(":12a\r\n"), Err(CodecError::InvalidNumber));
    assert_eq!(parse(":+\r\n"), Err(CodecError::InvalidNumber));
    assert_eq!(parse(":-\r\n"), Err(CodecError::InvalidNumber));
    assert_eq!(parse(": 5\r\n"), Err(CodecError::InvalidNumber));
    assert_eq!(parse(":5 \r\n"), Err(CodecError::InvalidNumber));
    assert_eq!(parse(":--5\r\n"), Err(CodecError::InvalidNumber));
    assert_eq!(parse("$\r\n"), Err(CodecError::InvalidNumber));
    assert_eq!(parse("$x\r\n"), Err(CodecError::InvalidNumber));
    assert_eq!(parse("$-2\r\n"), Err(CodecError::InvalidNumber));
    assert_eq!(parse("*\r\n"), Err(CodecError::InvalidNumber));
    assert_eq!(parse("*-1\r\n"), Err(CodecError::InvalidNumber));
    assert_eq!(parse("*-0\r\n"), Err(CodecError::InvalidNumber));
    assert_eq!(parse("*two\r\n"), Err(CodecError::InvalidNumber));
}

#[test]
fn integers_at_the_limits() {
    assert_eq!(parse(":9223372036854775807\r\n"), Ok(RespType::Int(i64::MAX)));
    assert_eq!(parse(":-9223372036854775808\r\n"), Ok(RespType::Int(i64::MIN)));
    assert_eq!(parse(":9223372036854775808\r\n"), Err(CodecError::InvalidNumber));
    assert_eq!(parse(":-9223372036854775809\r\n"), Err(CodecError::InvalidNumber));
    assert_eq!(parse(":99999999999999999999999999\r\n"), Err(CodecError::InvalidNumber));
    assert_eq!(parse(":0\r\n"), Ok(RespType::Int(0)));
    assert_eq!(parse(":-0\r\n"), Ok(RespType::Int(0)));
    assert_eq!(parse(":+0\r\n"), Ok(RespType::Int(0)));
    assert_eq!(parse(":007\r\n"), Ok(RespType::Int(7)));
    assert_eq!(parse(":00000000000000000000000000000012\r\n"), Ok(RespType::Int(12)));
}

#[test]
fn array_counts() {
    assert_eq!(parse("*0\r\n"), Ok(RespType::Array(vec![])));
    assert_eq!(parse("*+1\r\n:4\r\n"), Ok(RespType::Array(vec![RespType::Int(4)])));
    assert_eq!(parse("*18446744073709551616\r\n"), Err(CodecError::InvalidNumber));
    assert_eq!(parse("*18446744073709551615\r\n:1\r\n"), Err(CodecError::Truncated));
}

#[test]
fn array_of_three_hundred_items() {
    let mut text = String::from("*300\r\n");
    let mut items = Vec::new();
    for i in 0..300 {
        text.push_str(&format!(":{}\r\n", i));
        items.push(RespType::Int(i));
    }
    let des = RespType::Array(items);
    assert_eq!(des.serialize(), text);
    assert_eq!(parse(&text), Ok(des));
}

#[test]
fn empty_arrays_inside_arrays() {
    assert_eq!(
        parse("*2\r\n*0\r\n*0\r\n"),
        Ok(RespType::Array(vec![RespType::Array(vec![]), RespType::Array(vec![])]))
    );
    assert_eq!(
        parse("*1\r\n*1\r\n*0\r\n"),
        Ok(RespType::Array(vec![RespType::Array(vec![RespType::Array(vec![])])]))
    );
}

#[test]
fn inner_array_completes_the_outer_one() {
    // The outer array is whole once the inner one is: what follows is not
    // read.
    assert_eq!(
        parse("*1\r\n*1\r\n:1\r\n:5\r\n"),
        Ok(RespType::Array(vec![RespType::Array(vec![RespType::Int(1)])]))
    );
    assert_eq!(
        parse("*2\r\n:0\r\n*2\r\n:1\r\n*1\r\n:2\r\n"),
        Ok(RespType::Array(vec![
            RespType::Int(0),
            RespType::Array(vec![RespType::Int(1), RespType::Array(vec![RespType::Int(2)])]),
        ]))
    );
}

#[test]
fn what_follows_the_first_value_is_ignored() {
    assert_eq!(parse("+OK\r\n+NO\r\n"), Ok(simple("OK")));
    assert_eq!(parse(":1\r\n?\r\n"), Ok(RespType::Int(1)));
    assert_eq!(parse("*1\r\n:1\r\n*5\r\n"), Ok(RespType::Array(vec![RespType::Int(1)])));
}

#[test]
fn lines_without_their_delimiter() {
    assert_eq!(parse("+OK"), Ok(simple("OK")));
    assert_eq!(parse(":5"), Ok(RespType::Int(5)));
    assert_eq!(parse("$-1"), Ok(RespType::Null));
    assert_eq!(parse("+"), Ok(simple("")));
    assert_eq!(parse("+\r\n"), Ok(simple("")));
    // A bare line feed ends the line and stays in its text.
    assert_eq!(parse("+a\nb\r\n"), Ok(simple("a\n")));
    assert_eq!(parse(":5\n"), Err(CodecError::InvalidNumber));
    // Only one delimiter is taken off.
    assert_eq!(parse("+a\r\r\n"), Ok(simple("a\r")));
    assert_eq!(parse("+a\rb\r\n"), Ok(simple("a\rb")));
}

#[test]
fn bulk_strings() {
    assert_eq!(parse("$0\r\n\r\n"), Ok(bulk("")));
    assert_eq!(parse("$0\r\n"), Ok(bulk("")));
    assert_eq!(parse("$+3\r\nabc\r\n"), Ok(bulk("abc")));
    assert_eq!(parse("$5\r\nhello"), Ok(bulk("hello")));
    assert_eq!(parse("$7\r\na\r\nb\r\nc\r\n"), Ok(bulk("a\r\nb\r\nc")));
    // The rest of the payload's line is passed over.
    assert_eq!(
        parse("*2\r\n$2\r\nhixyz\r\n:1\r\n"),
        Ok(RespType::Array(vec![bulk("hi"), RespType::Int(1)]))
    );
}

#[test]
fn bulk_string_length_counts_bytes() {
    let des = bulk("h\u{e9}llo \u{20ac}");
    assert_eq!(des.serialize(), "$10\r\nh\u{e9}llo \u{20ac}\r\n");
    assert_eq!(parse("$10\r\nh\u{e9}llo \u{20ac}\r\n"), Ok(des));
    assert_eq!(parse("$3\r\n\u{20ac}\r\n"), Ok(bulk("\u{20ac}")));
    // A length that ends inside a character gives no text.
    assert_eq!(parse("$1\r\n\u{20ac}\r\n"), Err(CodecError::InvalidText));
    assert_eq!(parse("$2\r\n\u{20ac}\r\n"), Err(CodecError::InvalidText));
}

#[test]
fn parse_bytes_agrees_with_parse_line() {
    let frames = [
        "+OK\r\n",
        "$5\r\nhello\r\n",
        "*2\r\n$5\r\nhello\r\n:223\r\n",
        "*2\r\n:1\r\n",
        "?\r\n",
        "",
    ];
    for frame in frames {
        assert_eq!(Resp::new().parse_bytes(frame.as_bytes()), parse(frame));
    }
}

#[test]
fn parse_bytes_rejects_invalid_text() {
    let parser = Resp::new();
    assert_eq!(parser.parse_bytes(b"+\xff\xfe\r\n"), Err(CodecError::InvalidText));
    assert_eq!(parser.parse_bytes(b"$2\r\n\xc3\x28\r\n"), Err(CodecError::InvalidText));
    assert_eq!(parser.parse_bytes(b"$2\r\n\xc3\xa9\r\n"), Ok(bulk("\u{e9}")));
    assert_eq!(parser.parse_bytes(b"+caf\xc3\xa9\r\n"), Ok(simple("caf\u{e9}")));
}

#[test]
fn serialize_each_variant() {
    assert_eq!(bulk("").serialize(), "$0\r\n\r\n");
    assert_eq!(bulk("a\r\nb").serialize(), "$4\r\na\r\nb\r\n");
    assert_eq!(simple("").serialize(), "+\r\n");
    assert_eq!(simple("PONG").serialize(), "+PONG\r\n");
    assert_eq!(RespType::Error("bad thing".to_string()).serialize(), "-bad thing\r\n");
    assert_eq!(RespType::Int(0).serialize(), ":0\r\n");
    assert_eq!(RespType::Int(10).serialize(), ":10\r\n");
    assert_eq!(RespType::Int(-1).serialize(), ":-1\r\n");
    assert_eq!(RespType::Int(i64::MAX).serialize(), ":9223372036854775807\r\n");
    assert_eq!(RespType::Int(i64::MIN).serialize(), ":-9223372036854775808\r\n");
    assert_eq!(RespType::Null.serialize(), "$-1\r\n");
    assert_eq!(RespType::Array(vec![]).serialize(), "*0\r\n");
    assert_eq!(
        RespType::Array(vec![RespType::Null, simple("a"), RespType::Array(vec![])]).serialize(),
        "*3\r\n$-1\r\n+a\r\n*0\r\n"
    );
}

#[test]
fn to_bytes_and_write_to_give_the_same_bytes() {
    let v = RespType::Array(vec![bulk("GET"), bulk("k\u{e9}y")]);
    assert_eq!(v.to_bytes(), v.serialize().into_bytes());
    let mut out = b"x".to_vec();
    v.write_to(&mut out);
    assert_eq!(out, b"x*2\r\n$3\r\nGET\r\n$4\r\nk\xc3\xa9y\r\n".to_vec());
}

fn nested(depth: usize) -> RespType {
    let mut v = RespType::Array(vec![RespType::Int(depth as i64), bulk("leaf"), RespType::Null]);
    for level in 0..depth {
        v = RespType::Array(vec![simple("level"), v, RespType::Int(level as i64)]);
    }
    v
}

#[test]
fn round_trip_of_readable_values() {
    let values = vec![
        bulk(""),
        bulk("hello"),
        bulk("with\r\nline\nbreaks\r"),
        bulk("\u{1f600} \u{20ac} \u{e9}"),
        simple(""),
        simple("OK"),
        simple("carriage\rreturn"),
        simple("trailing\r"),
        simple("\u{1f600}"),
        RespType::Int(0),
        RespType::Int(-42),
        RespType::Int(i64::MAX),
        RespType::Int(i64::MIN),
        RespType::Null,
        RespType::Array(vec![]),
        RespType::Array(vec![RespType::Array(vec![RespType::Array(vec![])])]),
        nested(3),
        nested(4),
        nested(40),
    ];
    for v in values {
        let text = v.serialize();
        assert_eq!(parse(&text), Ok(v));
    }
}

#[test]
fn round_trip_of_deep_nesting() {
    let v = nested(2000);
    let text = v.serialize();
    let back = parse(&text).unwrap();
    assert_eq!(back.serialize(), text);
}

#[test]
fn values_that_do_not_round_trip() {
    // An error value is sent but not read back.
    let e = RespType::Error("oops".to_string());
    assert_eq!(parse(&e.serialize()), Err(CodecError::MalformedTag));
    // A simple string with a line feed is cut at it.
    let s = simple("two\nlines");
    assert_eq!(parse(&s.serialize()), Ok(simple("two\n")));
}

#[test]
fn serialize_is_deterministic() {
    let a = nested(5);
    let b = nested(5);
    assert_eq!(a.serialize(), b.serialize());
    assert_eq!(a.serialize(), a.serialize());
}
