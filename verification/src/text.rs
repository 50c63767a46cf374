//! Bytes and text: what the codec needs of UTF-8.

use vstd::prelude::*;
use vstd::string::*;
use vstd::utf8::*;

verus! {

/// Whether every byte of `b` is below 128.
pub open spec fn all_ascii(b: Seq<u8>) -> bool {
    forall|i: int| 0 <= i < b.len() ==> #[trigger] b[i] < 128
}

/// The characters that stand for ASCII bytes, one for one.
pub open spec fn ascii_chars(b: Seq<u8>) -> Seq<char> {
    Seq::new(b.len(), |i: int| b[i] as char)
}

/// ASCII bytes are valid UTF-8 and encode their own characters.
pub proof fn lemma_ascii_is_utf8(b: Seq<u8>)
    requires
        all_ascii(b),
    ensures
        valid_utf8(b),
        encode_utf8(ascii_chars(b)) == b,
        decode_utf8(b) == ascii_chars(b),
{
    let chars = ascii_chars(b);
    assert(is_ascii_chars(chars)) by {
        assert forall|i: int| 0 <= i < chars.len() implies '\0' <= #[trigger] chars[i]
            <= '\u{7f}' by {
            assert(b[i] < 128);
        }
    }
    is_ascii_chars_encode_utf8(chars);
    assert(encode_utf8(chars) =~= b) by {
        assert forall|i: int| 0 <= i < b.len() implies encode_utf8(chars)[i] == b[i] by {
            assert(chars[i] as u8 == b[i]);
        }
    }
    encode_utf8_valid_utf8(chars);
    encode_utf8_decode_utf8(chars);
}

/// Text is pinned down by its encoding.
pub proof fn lemma_encode_utf8_injective(a: Seq<char>, b: Seq<char>)
    requires
        encode_utf8(a) == encode_utf8(b),
    ensures
        a == b,
{
    encode_utf8_decode_utf8(a);
    encode_utf8_decode_utf8(b);
}

/// `String::from_utf8`: the text whose UTF-8 encoding is `bytes`. Trusted to
/// return a string exactly where `bytes` is valid UTF-8, and then the one
/// that holds the same bytes.
#[verifier::external_body]
pub(crate) fn string_from_utf8(bytes: Vec<u8>) -> (r: Option<String>)
    ensures
        r is Some <==> valid_utf8(bytes@),
        r is Some ==> encode_utf8(r->0@) == bytes@,
{
    String::from_utf8(bytes).ok()
}

/// Decodes `bytes` as UTF-8; `None` where they are not valid.
pub fn decode(bytes: Vec<u8>) -> (r: Option<String>)
    ensures
        r is Some <==> valid_utf8(bytes@),
        r is Some ==> r->0@ == decode_utf8(bytes@),
{
    let r = string_from_utf8(bytes);
    proof {
        if r is Some {
            encode_utf8_decode_utf8(r->0@);
        }
    }
    r
}

/// Appends `bytes` to `out`.
pub fn push_all(out: &mut Vec<u8>, bytes: &[u8])
    ensures
        final(out)@ == old(out)@ + bytes@,
{
    let mut i: usize = 0;
    while i < bytes.len()
        invariant
            0 <= i <= bytes@.len(),
            out@ == old(out)@ + bytes@.take(i as int),
        decreases bytes@.len() - i,
    {
        out.push(bytes[i]);
        i += 1;
        assert(out@ =~= old(out)@ + bytes@.take(i as int));
    }
    assert(bytes@.take(i as int) =~= bytes@);
}

/// Whether two texts are the same, told by their bytes.
pub fn same_text(a: &str, b: &str) -> (r: bool)
    ensures
        r == (a@ == b@),
{
    let x = a.as_bytes();
    let y = b.as_bytes();
    if x.len() != y.len() {
        return false;
    }
    let mut i: usize = 0;
    while i < x.len()
        invariant
            0 <= i <= x@.len(),
            x@.len() == y@.len(),
            x@ == encode_utf8(a@),
            y@ == encode_utf8(b@),
            x@.take(i as int) == y@.take(i as int),
        decreases x@.len() - i,
    {
        if x[i] != y[i] {
            return false;
        }
        assert(x@.take(i + 1) =~= x@.take(i as int).push(x@[i as int]));
        assert(y@.take(i + 1) =~= y@.take(i as int).push(y@[i as int]));
        i += 1;
    }
    proof {
        assert(x@.take(i as int) =~= x@);
        assert(y@.take(i as int) =~= y@);
        lemma_encode_utf8_injective(a@, b@);
    }
    true
}

/// Whether no byte of `s` is a line feed.
pub open spec fn no_line_feed(s: Seq<u8>) -> bool {
    forall|i: int| 0 <= i < s.len() ==> #[trigger] s[i] != 10u8
}

/// Whether no character of `s` is a line feed.
pub open spec fn no_newline(s: Seq<char>) -> bool {
    forall|i: int| 0 <= i < s.len() ==> #[trigger] s[i] != '\n'
}

/// Only the line feed is encoded with a byte that is a line feed.
proof fn lemma_scalar_line_feed(c: u32)
    requires
        is_scalar(c),
    ensures
        no_line_feed(encode_scalar(c)) <==> c != 10,
{
    let e = encode_scalar(c);
    if has_width_1_encoding(c) {
        assert(((c & 0x7F) as u8 == 10u8) <==> c == 10) by (bit_vector)
            requires
                c <= 0x7F,
        ;
        assert(e[0] == leading_byte_width_1(c));
    } else {
        assert((0xC0u8 | ((c >> 6) & 0x1F) as u8) != 10u8) by (bit_vector);
        assert((0xE0u8 | ((c >> 12) & 0x0F) as u8) != 10u8) by (bit_vector);
        assert((0xF0u8 | ((c >> 18) & 0x7) as u8) != 10u8) by (bit_vector);
        assert((0x80u8 | (c & 0x3F) as u8) != 10u8) by (bit_vector);
        assert((0x80u8 | ((c >> 6) & 0x3F) as u8) != 10u8) by (bit_vector);
        assert((0x80u8 | ((c >> 12) & 0x3F) as u8) != 10u8) by (bit_vector);
    }
}

/// A text is encoded without a line feed byte exactly where it holds no
/// line feed.
pub proof fn lemma_line_feed_chars(s: Seq<char>)
    ensures
        no_line_feed(encode_utf8(s)) <==> no_newline(s),
    decreases s.len(),
{
    if s.len() > 0 {
        let head = encode_scalar(s[0] as u32);
        let tail = encode_utf8(s.drop_first());
        char_is_scalar(s[0]);
        lemma_scalar_line_feed(s[0] as u32);
        lemma_line_feed_chars(s.drop_first());
        assert(encode_utf8(s) == head + tail);
        assert((s[0] as u32 != 10) <==> s[0] != '\n') by {
            assert('\n' as u32 == 10);
            char_u32_cast('\n', 10u32);
            char_u32_cast(s[0], s[0] as u32);
        }
        if no_line_feed(head + tail) {
            assert forall|i: int| 0 <= i < head.len() implies #[trigger] head[i] != 10u8 by {
                assert((head + tail)[i] == head[i]);
            }
            assert forall|i: int| 0 <= i < tail.len() implies #[trigger] tail[i] != 10u8 by {
                assert((head + tail)[head.len() + i] == tail[i]);
            }
            assert forall|i: int| 0 <= i < s.len() implies #[trigger] s[i] != '\n' by {
                if i > 0 {
                    assert(s.drop_first()[i - 1] == s[i]);
                }
            }
        }
        if no_newline(s) {
            assert forall|i: int| 0 <= i < s.drop_first().len() implies #[trigger] s.drop_first()[i]
                != '\n' by {
                assert(s.drop_first()[i] == s[i + 1]);
            }
            assert(s[0] != '\n');
        }
    }
}

} // verus!
