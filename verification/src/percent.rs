//! Percent encoding of URL path segments.
//!
//! A segment is the text between two slashes of a URL path. [`encode_segment`] writes any text as
//! one segment, [`decode_segment`] reads it back.

use percent_encoding::{percent_decode_str, percent_encode_byte};
use vstd::prelude::*;
use vstd::utf8::{
    decode_utf8, encode_utf8, encode_utf8_decode_utf8, encode_utf8_valid_utf8, is_ascii_chars,
    is_ascii_chars_encode_utf8, valid_utf8,
};

verus! {

/// The upper-case hexadecimal digit for a value below sixteen.
pub open spec fn upper_hex_digit(n: int) -> char {
    if n < 10 {
        (n + '0' as int) as char
    } else {
        (n - 10 + 'A' as int) as char
    }
}

/// A byte written as `%` and its two upper-case hexadecimal digits.
pub open spec fn escape(byte: u8) -> Seq<char> {
    seq!['%', upper_hex_digit(byte as int / 16), upper_hex_digit(byte as int % 16)]
}

/// The bytes that cannot stand for themselves in a path segment: all but the letters and digits of
/// ASCII, `-`, `_`, `.` and `~`. A slash is among them, for it would end the segment, and so is `%`,
/// which starts an escape.
pub open spec fn is_reserved(byte: u8) -> bool {
    !({
        ||| 0x30 <= byte <= 0x39  // 0 to 9
        ||| 0x41 <= byte <= 0x5a  // A to Z
        ||| 0x61 <= byte <= 0x7a  // a to z
        ||| byte == 0x2d  // -
        ||| byte == 0x5f  // _
        ||| byte == 0x2e  // .
        ||| byte == 0x7e  // ~
    })
}

/// What one byte of a segment becomes.
pub open spec fn encode_byte(byte: u8) -> Seq<char> {
    if is_reserved(byte) {
        escape(byte)
    } else {
        seq![byte as char]
    }
}

/// Bytes written as a path segment.
pub open spec fn encode_bytes(bytes: Seq<u8>) -> Seq<char>
    decreases bytes.len(),
{
    if bytes.len() == 0 {
        seq![]
    } else {
        encode_byte(bytes[0]) + encode_bytes(bytes.drop_first())
    }
}

/// A text written as a path segment: its UTF-8 bytes, with the reserved ones escaped.
pub open spec fn encoded(segment: Seq<char>) -> Seq<char> {
    encode_bytes(encode_utf8(segment))
}

/// The value of a hexadecimal digit of either case.
pub open spec fn hex_value(byte: u8) -> Option<u8> {
    if 0x30 <= byte <= 0x39 {
        Some((byte - 0x30) as u8)
    } else if 0x41 <= byte <= 0x46 {
        Some((byte - 0x41 + 10) as u8)
    } else if 0x61 <= byte <= 0x66 {
        Some((byte - 0x61 + 10) as u8)
    } else {
        None
    }
}

/// Whether the bytes start with `%` and two hexadecimal digits.
pub open spec fn starts_with_escape(bytes: Seq<u8>) -> bool {
    bytes.len() >= 3 && bytes[0] == 0x25 && hex_value(bytes[1]) is Some && hex_value(bytes[2]) is Some
}

/// Bytes with every `%` and two hexadecimal digits replaced by the byte they stand for. A `%`
/// without two such digits behind it stays as it is.
pub open spec fn decode_bytes(bytes: Seq<u8>) -> Seq<u8>
    decreases bytes.len(),
{
    if bytes.len() == 0 {
        seq![]
    } else if starts_with_escape(bytes) {
        seq![(hex_value(bytes[1])->0 * 16 + hex_value(bytes[2])->0) as u8] + decode_bytes(
            bytes.skip(3),
        )
    } else {
        seq![bytes[0]] + decode_bytes(bytes.drop_first())
    }
}

/// The text that a path segment stands for, if its bytes are UTF-8 once decoded.
pub open spec fn decoded(segment: Seq<char>) -> Option<Seq<char>> {
    let bytes = decode_bytes(encode_utf8(segment));
    if valid_utf8(bytes) {
        Some(decode_utf8(bytes))
    } else {
        None
    }
}

/// `percent_encoding::percent_encode_byte` gives `%` and the byte's two upper-case hexadecimal
/// digits, whatever the byte.
pub assume_specification[ percent_encode_byte ](byte: u8) -> (r: &'static str)
    ensures
        r@ == escape(byte),
;

/// `percent_encoding::percent_decode_str` replaces every `%` that two hexadecimal digits follow,
/// and `decode_utf8` on its result gives the text, or an error when the bytes are not UTF-8.
#[verifier::external_body]
fn percent_decode_utf8(text: &str) -> (r: Option<String>)
    ensures
        r is Some <==> decoded(text@) is Some,
        r is Some ==> r->0@ == decoded(text@)->0,
{
    percent_decode_str(text).decode_utf8().ok().map(|decoded_text| decoded_text.into_owned())
}

/// Reads a path segment: the text it stands for, or `None` when its bytes are not UTF-8 once
/// decoded.
pub fn decode_segment(segment: &str) -> (r: Option<String>)
    ensures
        r is Some <==> decoded(segment@) is Some,
        r is Some ==> r->0@ == decoded(segment@)->0,
{
    percent_decode_utf8(segment)
}

/// Whether a byte has to be escaped.
fn reserved(byte: u8) -> (r: bool)
    ensures
        r == is_reserved(byte),
{
    !((0x30 <= byte && byte <= 0x39) || (0x41 <= byte && byte <= 0x5a) || (0x61 <= byte && byte
        <= 0x7a) || byte == 0x2d || byte == 0x5f || byte == 0x2e || byte == 0x7e)
}

/// Writes a text as one path segment.
pub fn encode_segment(segment: &str) -> (r: String)
    ensures
        r@ == encoded(segment@),
{
    let bytes = segment.as_bytes();
    let mut out = String::new();
    let mut i: usize = 0;
    assert(bytes@.skip(0) =~= bytes@);
    while i < bytes.len()
        invariant
            i <= bytes@.len(),
            out@ + encode_bytes(bytes@.skip(i as int)) == encode_bytes(bytes@),
        decreases bytes@.len() - i,
    {
        let byte = bytes[i];
        let ghost before = out@;
        if reserved(byte) {
            out.append(percent_encode_byte(byte));
        } else {
            out.push(byte as char);
        }
        i = i + 1;
        proof {
            let rest = bytes@.skip(i - 1);
            assert(rest.drop_first() =~= bytes@.skip(i as int));
            assert(out@ =~= before + encode_byte(byte));
            assert(out@ + encode_bytes(bytes@.skip(i as int)) =~= before + encode_bytes(rest));
        }
    }
    assert(out@ + encode_bytes(bytes@.skip(i as int)) =~= out@);
    out
}

/// The characters that an encoded segment is made of: `%` and the bytes that stand for themselves.
pub open spec fn is_segment_char(c: char) -> bool {
    c == '%' || (c <= '\u{7f}' && !is_reserved(c as u8))
}

/// An encoded byte is made of segment characters only.
proof fn lemma_encode_byte_chars(byte: u8)
    ensures
        forall|i: int|
            0 <= i < encode_byte(byte).len() ==> is_segment_char(#[trigger] encode_byte(byte)[i]),
        encode_byte(byte).len() >= 1,
{
}

/// Encoded bytes are made of segment characters only.
proof fn lemma_encode_bytes_chars(bytes: Seq<u8>)
    ensures
        forall|i: int|
            0 <= i < encode_bytes(bytes).len() ==> is_segment_char(
                #[trigger] encode_bytes(bytes)[i],
            ),
        is_ascii_chars(encode_bytes(bytes)),
        encode_bytes(bytes).len() >= bytes.len(),
    decreases bytes.len(),
{
    if bytes.len() > 0 {
        let head = encode_byte(bytes[0]);
        let tail = encode_bytes(bytes.drop_first());
        lemma_encode_byte_chars(bytes[0]);
        lemma_encode_bytes_chars(bytes.drop_first());
        assert forall|i: int| 0 <= i < encode_bytes(bytes).len() implies is_segment_char(
            #[trigger] encode_bytes(bytes)[i],
        ) by {
            if i < head.len() {
                assert(encode_bytes(bytes)[i] == head[i]);
            } else {
                assert(encode_bytes(bytes)[i] == tail[i - head.len()]);
            }
        }
    }
    assert forall|i: int| 0 <= i < encode_bytes(bytes).len() implies '\0' <= #[trigger] encode_bytes(
        bytes,
    )[i] <= '\u{7f}' by {
        let c = encode_bytes(bytes)[i];
        assert(is_segment_char(c));
        assert('\0' <= c);
    }
}

/// Decoding undoes the encoding of bytes.
proof fn lemma_decode_encoded_bytes(bytes: Seq<u8>)
    ensures
        decode_bytes(encode_utf8(encode_bytes(bytes))) == bytes,
    decreases bytes.len(),
{
    let text = encode_bytes(bytes);
    lemma_encode_bytes_chars(bytes);
    is_ascii_chars_encode_utf8(text);
    let raw = encode_utf8(text);
    if bytes.len() > 0 {
        let head = encode_byte(bytes[0]);
        let rest = encode_bytes(bytes.drop_first());
        lemma_encode_bytes_chars(bytes.drop_first());
        is_ascii_chars_encode_utf8(rest);
        lemma_decode_encoded_bytes(bytes.drop_first());
        assert(text =~= head + rest);
        assert(forall|i: int| 0 <= i < head.len() ==> raw[i] == #[trigger] head[i] as u8) by {
            assert forall|i: int| 0 <= i < head.len() implies raw[i] == #[trigger] head[i] as u8 by {
                assert(text[i] == head[i]);
            }
        }
        assert(raw.skip(head.len() as int) =~= encode_utf8(rest)) by {
            assert forall|i: int| 0 <= i < rest.len() implies raw.skip(head.len() as int)[i]
                == encode_utf8(rest)[i] by {
                assert(text[i + head.len()] == rest[i]);
            }
        }
        if is_reserved(bytes[0]) {
            assert(head[0] as u8 == raw[0] && head[1] as u8 == raw[1] && head[2] as u8 == raw[2]);
            assert(starts_with_escape(raw));
            assert(decode_bytes(raw) =~= seq![bytes[0]] + decode_bytes(raw.skip(3)));
        } else {
            assert(head[0] as u8 == raw[0]);
            assert(raw.drop_first() =~= raw.skip(1));
            assert(decode_bytes(raw) =~= seq![bytes[0]] + decode_bytes(raw.skip(1)));
        }
        assert(seq![bytes[0]] + bytes.drop_first() =~= bytes);
    } else {
        assert(decode_bytes(raw) =~= bytes);
    }
}

/// A text of unreserved ASCII characters is written as it is.
pub proof fn lemma_plain_encoded(segment: Seq<char>)
    requires
        forall|i: int|
            0 <= i < segment.len() ==> '\0' <= #[trigger] segment[i] <= '\u{7f}' && !is_reserved(
                segment[i] as u8,
            ),
    ensures
        encoded(segment) == segment,
{
    assert(is_ascii_chars(segment));
    is_ascii_chars_encode_utf8(segment);
    let bytes = encode_utf8(segment);
    assert forall|i: int| 0 <= i < bytes.len() implies !is_reserved(#[trigger] bytes[i]) by {
        assert(segment[i] as u8 == bytes[i]);
    }
    lemma_plain_bytes(bytes);
    assert forall|i: int| 0 <= i < segment.len() implies bytes[i] as char == segment[i] by {
        let c = segment[i];
        assert(c as u8 == bytes[i]);
    }
    assert(encoded(segment) =~= segment);
}

proof fn lemma_plain_bytes(bytes: Seq<u8>)
    requires
        forall|i: int| 0 <= i < bytes.len() ==> !is_reserved(#[trigger] bytes[i]),
    ensures
        encode_bytes(bytes) == bytes.map_values(|b: u8| b as char),
    decreases bytes.len(),
{
    if bytes.len() > 0 {
        let rest = bytes.drop_first();
        assert forall|i: int| 0 <= i < rest.len() implies !is_reserved(#[trigger] rest[i]) by {
            assert(rest[i] == bytes[i + 1]);
        }
        lemma_plain_bytes(rest);
        assert(!is_reserved(bytes[0]));
        assert(encode_bytes(bytes) =~= bytes.map_values(|b: u8| b as char));
    } else {
        assert(encode_bytes(bytes) =~= bytes.map_values(|b: u8| b as char));
    }
}

/// Reading a segment that was written from a text gives the text back, whatever the text.
pub proof fn law_decode_encoded(segment: Seq<char>)
    ensures
        decoded(encoded(segment)) == Some(segment),
{
    lemma_decode_encoded_bytes(encode_utf8(segment));
    encode_utf8_valid_utf8(segment);
    encode_utf8_decode_utf8(segment);
}

/// A written segment holds no character that would end or split it: nothing but `%` and the
/// characters that stand for themselves. It is empty only when the text is.
pub proof fn law_encoded_is_one_segment(segment: Seq<char>)
    ensures
        forall|i: int|
            0 <= i < encoded(segment).len() ==> is_segment_char(#[trigger] encoded(segment)[i]),
        encoded(segment).len() == 0 <==> segment.len() == 0,
{
    lemma_encode_bytes_chars(encode_utf8(segment));
    if segment.len() > 0 {
        vstd::utf8::encode_utf8_first_scalar(segment);
    }
}

/// Encoded bytes are at most three times as long.
proof fn lemma_encode_bytes_length(bytes: Seq<u8>)
    ensures
        encode_bytes(bytes).len() <= 3 * bytes.len(),
    decreases bytes.len(),
{
    if bytes.len() > 0 {
        lemma_encode_bytes_length(bytes.drop_first());
    }
}

/// A character takes one to four bytes.
proof fn lemma_utf8_length(text: Seq<char>)
    ensures
        text.len() <= encode_utf8(text).len() <= 4 * text.len(),
    decreases text.len(),
{
    if text.len() > 0 {
        lemma_utf8_length(text.drop_first());
    }
}

/// A written segment is no shorter than the text, and at most twelve times as long.
pub proof fn law_encoded_length(segment: Seq<char>)
    ensures
        segment.len() <= encoded(segment).len() <= 12 * segment.len(),
{
    lemma_utf8_length(segment);
    lemma_encode_bytes_chars(encode_utf8(segment));
    lemma_encode_bytes_length(encode_utf8(segment));
}

/// The bytes of a character outside ASCII all lie outside ASCII, and one inside is its own byte.
proof fn lemma_scalar_bytes(c: char)
    ensures
        c <= '\u{7f}' ==> vstd::utf8::encode_scalar(c as u32) == seq![c as u8],
        c > '\u{7f}' ==> forall|i: int|
            0 <= i < vstd::utf8::encode_scalar(c as u32).len() ==> 0x80
                <= #[trigger] vstd::utf8::encode_scalar(c as u32)[i],
        vstd::utf8::encode_scalar(c as u32).len() > 0,
        '\0' <= c,
{
    vstd::utf8::char_is_scalar(c);
    let s = c as u32;
    if c <= '\u{7f}' {
        let t = seq![c];
        assert('\0' <= c);
        assert(is_ascii_chars(t));
        is_ascii_chars_encode_utf8(t);
        assert(t.drop_first() =~= Seq::<char>::empty());
        reveal_with_fuel(encode_utf8, 2);
        assert(encode_utf8(t) =~= vstd::utf8::encode_scalar(s));
        assert(encode_utf8(t) =~= seq![c as u8]);
    } else {
        assert(0x80u8 <= 0xC0u8 | ((s >> 6) & 0x1F) as u8) by (bit_vector);
        assert(0x80u8 <= 0xE0u8 | ((s >> 12) & 0x0F) as u8) by (bit_vector);
        assert(0x80u8 <= 0xF0u8 | ((s >> 18) & 0x7) as u8) by (bit_vector);
        assert(0x80u8 <= 0x80u8 | (s & 0x3F) as u8) by (bit_vector);
        assert(0x80u8 <= 0x80u8 | ((s >> 6) & 0x3F) as u8) by (bit_vector);
        assert(0x80u8 <= 0x80u8 | ((s >> 12) & 0x3F) as u8) by (bit_vector);
    }
}

/// The bytes of two texts are those of the first and then those of the second.
proof fn lemma_utf8_of_two(a: Seq<char>, b: Seq<char>)
    ensures
        encode_utf8(a + b) == encode_utf8(a) + encode_utf8(b),
    decreases a.len(),
{
    if a.len() == 0 {
        assert(a + b =~= b);
        assert(encode_utf8(a) + encode_utf8(b) =~= encode_utf8(b));
    } else {
        lemma_utf8_of_two(a.drop_first(), b);
        assert((a + b).drop_first() =~= a.drop_first() + b);
        assert(encode_utf8(a + b) =~= encode_utf8(a) + encode_utf8(b));
    }
}

/// Whether bytes behind a text are UTF-8, and what text they are, does not depend on the text.
proof fn lemma_utf8_behind(text: Seq<char>, x: Seq<u8>)
    ensures
        valid_utf8(encode_utf8(text) + x) == valid_utf8(x),
        valid_utf8(x) ==> decode_utf8(encode_utf8(text) + x) == text + decode_utf8(x),
    decreases text.len(),
{
    let all = encode_utf8(text) + x;
    if text.len() == 0 {
        assert(all =~= x);
        assert(text + decode_utf8(x) =~= decode_utf8(x));
    } else {
        let rest = text.drop_first();
        lemma_utf8_behind(rest, x);
        vstd::utf8::encode_utf8_first_scalar(text);
        let own = encode_utf8(text);
        let head = vstd::utf8::encode_scalar(text[0] as u32);
        lemma_scalar_bytes(text[0]);
        assert(own =~= head + encode_utf8(rest));
        assert(vstd::utf8::valid_first_scalar(all));
        assert(vstd::utf8::decode_first_scalar(all) == vstd::utf8::decode_first_scalar(own));
        assert(vstd::utf8::pop_first_scalar(all) =~= encode_utf8(rest) + x);
        vstd::utf8::char_u32_cast(text[0], vstd::utf8::decode_first_scalar(all));
        if valid_utf8(x) {
            assert(seq![text[0]] + (rest + decode_utf8(x)) =~= text + decode_utf8(x));
        }
    }
}

/// Bytes that start no escape are read as they are.
proof fn lemma_decode_plain_bytes(head: Seq<u8>, x: Seq<u8>)
    requires
        forall|i: int| 0 <= i < head.len() ==> #[trigger] head[i] != 0x25,
    ensures
        decode_bytes(head + x) == head + decode_bytes(x),
    decreases head.len(),
{
    if head.len() == 0 {
        assert(head + x =~= x);
        assert(head + decode_bytes(x) =~= decode_bytes(x));
    } else {
        let rest = head.drop_first();
        assert forall|i: int| 0 <= i < rest.len() implies #[trigger] rest[i] != 0x25 by {
            assert(rest[i] == head[i + 1]);
        }
        lemma_decode_plain_bytes(rest, x);
        assert((head + x).drop_first() =~= rest + x);
        assert((head + x)[0] == head[0]);
        assert(decode_bytes(head + x) =~= head + decode_bytes(x));
    }
}

/// A character that is not `%` has no byte that starts an escape.
proof fn lemma_no_percent_byte(c: char)
    requires
        c != '%',
    ensures
        forall|i: int| 0 <= i < encode_utf8(seq![c]).len() ==> #[trigger] encode_utf8(seq![c])[i]
            != 0x25,
{
    lemma_scalar_bytes(c);
    reveal_with_fuel(encode_utf8, 2);
    assert(seq![c].drop_first() =~= Seq::<char>::empty());
    assert(encode_utf8(seq![c]) =~= vstd::utf8::encode_scalar(c as u32));
    if c <= '\u{7f}' {
        assert('\0' <= c);
        assert(c as u8 != 0x25);
    }
}

/// Where a character other than `%` comes first, it is read as itself, and the rest as it would be
/// alone.
pub proof fn law_other_characters_are_read_as_they_are(c: char, rest: Seq<char>)
    requires
        c != '%',
    ensures
        decoded(seq![c] + rest) == match decoded(rest) {
            Some(text) => Some(seq![c] + text),
            None => None,
        },
{
    lemma_utf8_of_two(seq![c], rest);
    lemma_no_percent_byte(c);
    lemma_decode_plain_bytes(encode_utf8(seq![c]), encode_utf8(rest));
    lemma_utf8_behind(seq![c], decode_bytes(encode_utf8(rest)));
}

/// A text without `%` is read as it is.
pub proof fn law_text_without_escapes_is_read_as_it_is(s: Seq<char>)
    requires
        forall|i: int| 0 <= i < s.len() ==> #[trigger] s[i] != '%',
    ensures
        decoded(s) == Some(s),
    decreases s.len(),
{
    if s.len() == 0 {
        assert(decode_utf8(Seq::<u8>::empty()) =~= s);
        assert(decode_bytes(encode_utf8(s)) =~= Seq::<u8>::empty());
    } else {
        let rest = s.drop_first();
        assert forall|i: int| 0 <= i < rest.len() implies #[trigger] rest[i] != '%' by {
            assert(rest[i] == s[i + 1]);
        }
        law_text_without_escapes_is_read_as_it_is(rest);
        law_other_characters_are_read_as_they_are(s[0], rest);
        assert(seq![s[0]] + rest =~= s);
    }
}

/// A `%` that two hexadecimal digits follow, of either case, is read with them as the ASCII
/// character of that number, and the rest as it would be alone.
pub proof fn law_escapes_are_read(high: char, low: char, rest: Seq<char>, value: char)
    requires
        '0' <= high <= '7',
        value as int == 16 * (high as int - '0' as int) + (if '0' <= low <= '9' {
            low as int - '0' as int
        } else if 'a' <= low <= 'f' {
            low as int - 'a' as int + 10
        } else {
            low as int - 'A' as int + 10
        }),
        '0' <= low <= '9' || 'a' <= low <= 'f' || 'A' <= low <= 'F',
    ensures
        decoded(seq!['%', high, low] + rest) == match decoded(rest) {
            Some(text) => Some(seq![value] + text),
            None => None,
        },
{
    let head = seq!['%', high, low];
    lemma_utf8_of_two(head, rest);
    assert(is_ascii_chars(head));
    is_ascii_chars_encode_utf8(head);
    let all = encode_utf8(head + rest);
    let behind = encode_utf8(rest);
    assert(head[0] as u8 == all[0] && head[1] as u8 == all[1] && head[2] as u8 == all[2]);
    assert(all.skip(3) =~= behind);
    assert(starts_with_escape(all));
    lemma_scalar_bytes(value);
    reveal_with_fuel(encode_utf8, 2);
    assert(seq![value].drop_first() =~= Seq::<char>::empty());
    assert(encode_utf8(seq![value]) =~= seq![value as u8]);
    assert(decode_bytes(all) =~= seq![value as u8] + decode_bytes(behind));
    lemma_utf8_behind(seq![value], decode_bytes(behind));
}

/// A `%` that two hexadecimal digits do not follow is read as it is, and the rest as it would be
/// alone.
pub proof fn law_lone_percent_is_read_as_it_is(rest: Seq<char>)
    requires
        rest.len() < 2 || !('0' <= rest[0] <= '9' || 'a' <= rest[0] <= 'f' || 'A' <= rest[0] <= 'F')
            || !('0' <= rest[1] <= '9' || 'a' <= rest[1] <= 'f' || 'A' <= rest[1] <= 'F'),
    ensures
        decoded(seq!['%'] + rest) == match decoded(rest) {
            Some(text) => Some(seq!['%'] + text),
            None => None,
        },
{
    let head = seq!['%'];
    lemma_utf8_of_two(head, rest);
    lemma_scalar_bytes('%');
    reveal_with_fuel(encode_utf8, 2);
    assert(head.drop_first() =~= Seq::<char>::empty());
    assert(encode_utf8(head) =~= seq![0x25u8]);
    let all = encode_utf8(head + rest);
    let behind = encode_utf8(rest);
    assert(all.drop_first() =~= behind);
    assert(!starts_with_escape(all)) by {
        if starts_with_escape(all) {
            lemma_hex_byte_is_char(rest);
            assert(all[1] == behind[0] && all[2] == behind[1]);
            let tail = rest.drop_first();
            lemma_hex_byte_is_char(tail);
            assert(behind.drop_first() =~= encode_utf8(tail));
            assert(behind[1] == encode_utf8(tail)[0]);
        }
    }
    assert(decode_bytes(all) =~= seq![0x25u8] + decode_bytes(behind));
    lemma_utf8_behind(head, decode_bytes(behind));
}

/// A hexadecimal digit among the bytes is one among the characters.
proof fn lemma_hex_byte_is_char(s: Seq<char>)
    ensures
        encode_utf8(s).len() > 0 && hex_value(encode_utf8(s)[0]) is Some ==> {
            &&& s.len() > 0
            &&& '0' <= s[0] <= '9' || 'a' <= s[0] <= 'f' || 'A' <= s[0] <= 'F'
            &&& encode_utf8(s).drop_first() == encode_utf8(s.drop_first())
        },
{
    if s.len() > 0 {
        let c = s[0];
        lemma_scalar_bytes(c);
        let head = vstd::utf8::encode_scalar(c as u32);
        assert(encode_utf8(s) =~= head + encode_utf8(s.drop_first()));
        assert(encode_utf8(s)[0] == head[0]);
        if c <= '\u{7f}' {
            assert(head[0] == c as u8);
            assert(encode_utf8(s).drop_first() =~= encode_utf8(s.drop_first()));
        }
    }
}

/// Encoded bytes of two byte strings.
proof fn lemma_encode_bytes_of_two(a: Seq<u8>, b: Seq<u8>)
    ensures
        encode_bytes(a + b) == encode_bytes(a) + encode_bytes(b),
    decreases a.len(),
{
    if a.len() == 0 {
        assert(a + b =~= b);
        assert(encode_bytes(a) + encode_bytes(b) =~= encode_bytes(b));
    } else {
        lemma_encode_bytes_of_two(a.drop_first(), b);
        assert((a + b).drop_first() =~= a.drop_first() + b);
        assert(encode_bytes(a + b) =~= encode_bytes(a) + encode_bytes(b));
    }
}

/// Each part of a text is written by itself, whatever stands around it.
pub proof fn law_encoded_of_two(a: Seq<char>, b: Seq<char>)
    ensures
        encoded(a + b) == encoded(a) + encoded(b),
{
    lemma_utf8_of_two(a, b);
    lemma_encode_bytes_of_two(encode_utf8(a), encode_utf8(b));
}

/// Letters and digits of ASCII, `-`, `_`, `.` and `~` are written as they are.
pub proof fn law_plain_text_is_written_as_it_is(s: Seq<char>)
    requires
        forall|i: int|
            0 <= i < s.len() ==> ('a' <= #[trigger] s[i] <= 'z' || 'A' <= s[i] <= 'Z' || '0' <= s[i]
                <= '9' || s[i] == '-' || s[i] == '_' || s[i] == '.' || s[i] == '~'),
    ensures
        encoded(s) == s,
{
    assert forall|i: int| 0 <= i < s.len() implies '\0' <= #[trigger] s[i] <= '\u{7f}'
        && !is_reserved(s[i] as u8) by {
        let c = s[i];
    }
    lemma_plain_encoded(s);
}

/// Every other character is written as one escape for each of its bytes: `%` and the two upper-case
/// hexadecimal digits of the byte.
pub proof fn law_other_characters_are_escaped(c: char)
    requires
        !('a' <= c <= 'z' || 'A' <= c <= 'Z' || '0' <= c <= '9' || c == '-' || c == '_' || c == '.'
            || c == '~'),
    ensures
        encoded(seq![c]).len() == 3 * encode_utf8(seq![c]).len(),
        forall|k: int|
            0 <= k < encode_utf8(seq![c]).len() ==> {
                let byte = #[trigger] encode_utf8(seq![c])[k];
                let (high, low) = (encoded(seq![c])[3 * k + 1], encoded(seq![c])[3 * k + 2]);
                &&& encoded(seq![c])[3 * k] == '%'
                &&& '0' <= high <= '9' || 'A' <= high <= 'F'
                &&& '0' <= low <= '9' || 'A' <= low <= 'F'
                &&& byte as int == 16 * (if high <= '9' {
                    high as int - '0' as int
                } else {
                    high as int - 'A' as int + 10
                }) + (if low <= '9' {
                    low as int - '0' as int
                } else {
                    low as int - 'A' as int + 10
                })
            },
{
    lemma_scalar_bytes(c);
    reveal_with_fuel(encode_utf8, 2);
    assert(seq![c].drop_first() =~= Seq::<char>::empty());
    let bytes = encode_utf8(seq![c]);
    assert(bytes =~= vstd::utf8::encode_scalar(c as u32));
    assert forall|i: int| 0 <= i < bytes.len() implies is_reserved(#[trigger] bytes[i]) by {
        if c <= '\u{7f}' {
            assert('\0' <= c);
            assert(bytes[i] == c as u8);
        }
    }
    lemma_escaped_bytes(bytes);
    assert forall|k: int| 0 <= k < bytes.len() implies {
        let byte = #[trigger] bytes[k];
        let (high, low) = (encoded(seq![c])[3 * k + 1], encoded(seq![c])[3 * k + 2]);
        &&& encoded(seq![c])[3 * k] == '%'
        &&& '0' <= high <= '9' || 'A' <= high <= 'F'
        &&& '0' <= low <= '9' || 'A' <= low <= 'F'
        &&& byte as int == 16 * (if high <= '9' {
            high as int - '0' as int
        } else {
            high as int - 'A' as int + 10
        }) + (if low <= '9' {
            low as int - '0' as int
        } else {
            low as int - 'A' as int + 10
        })
    } by {
        let byte = bytes[k];
        lemma_escape_digits(byte);
        assert(encode_bytes(bytes).subrange(3 * k, 3 * k + 3) == escape(byte));
        let part = encode_bytes(bytes).subrange(3 * k, 3 * k + 3);
        assert(part[0] == encode_bytes(bytes)[3 * k]);
        assert(part[1] == encode_bytes(bytes)[3 * k + 1]);
        assert(part[2] == encode_bytes(bytes)[3 * k + 2]);
    }
}

/// The digits of an escape.
proof fn lemma_escape_digits(byte: u8)
    ensures
        ({
            let (high, low) = (escape(byte)[1], escape(byte)[2]);
            &&& '0' <= high <= '9' || 'A' <= high <= 'F'
            &&& '0' <= low <= '9' || 'A' <= low <= 'F'
            &&& byte as int == 16 * (if high <= '9' {
                high as int - '0' as int
            } else {
                high as int - 'A' as int + 10
            }) + (if low <= '9' {
                low as int - '0' as int
            } else {
                low as int - 'A' as int + 10
            })
        }),
{
    assert(0 <= byte as int / 16 < 16 && 0 <= byte as int % 16 < 16);
}

/// Reserved bytes become three characters each.
proof fn lemma_escaped_bytes(bytes: Seq<u8>)
    requires
        forall|i: int| 0 <= i < bytes.len() ==> is_reserved(#[trigger] bytes[i]),
    ensures
        encode_bytes(bytes).len() == 3 * bytes.len(),
        forall|k: int|
            0 <= k < bytes.len() ==> encode_bytes(bytes).subrange(3 * k, 3 * k + 3) == escape(
                #[trigger] bytes[k],
            ),
    decreases bytes.len(),
{
    if bytes.len() > 0 {
        let rest = bytes.drop_first();
        assert forall|i: int| 0 <= i < rest.len() implies is_reserved(#[trigger] rest[i]) by {
            assert(rest[i] == bytes[i + 1]);
        }
        lemma_escaped_bytes(rest);
        assert(is_reserved(bytes[0]));
        assert forall|k: int| 0 <= k < bytes.len() implies encode_bytes(bytes).subrange(
            3 * k,
            3 * k + 3,
        ) == escape(#[trigger] bytes[k]) by {
            if k == 0 {
                assert(encode_bytes(bytes).subrange(0, 3) =~= escape(bytes[0]));
            } else {
                assert(rest[k - 1] == bytes[k]);
                assert(encode_bytes(bytes).subrange(3 * k, 3 * k + 3) =~= encode_bytes(
                    rest,
                ).subrange(3 * (k - 1), 3 * (k - 1) + 3));
            }
        }
    }
}

/// A written segment with something behind it is read as the text with what that reads as behind
/// it.
pub proof fn law_written_segment_in_front(a: Seq<char>, rest: Seq<char>)
    ensures
        decoded(encoded(a) + rest) == match decoded(rest) {
            Some(text) => Some(a + text),
            None => None,
        },
{
    lemma_utf8_of_two(encoded(a), rest);
    lemma_decode_encoded_behind(encode_utf8(a), encode_utf8(rest));
    lemma_utf8_behind(a, decode_bytes(encode_utf8(rest)));
}

/// Decoding undoes the encoding of bytes, whatever stands behind.
proof fn lemma_decode_encoded_behind(bytes: Seq<u8>, x: Seq<u8>)
    ensures
        decode_bytes(encode_utf8(encode_bytes(bytes)) + x) == bytes + decode_bytes(x),
    decreases bytes.len(),
{
    let text = encode_bytes(bytes);
    lemma_encode_bytes_chars(bytes);
    is_ascii_chars_encode_utf8(text);
    let raw = encode_utf8(text);
    if bytes.len() > 0 {
        let head = encode_byte(bytes[0]);
        let rest = encode_bytes(bytes.drop_first());
        lemma_encode_bytes_chars(bytes.drop_first());
        is_ascii_chars_encode_utf8(rest);
        lemma_decode_encoded_behind(bytes.drop_first(), x);
        assert(text =~= head + rest);
        assert forall|i: int| 0 <= i < head.len() implies raw[i] == #[trigger] head[i] as u8 by {
            assert(text[i] == head[i]);
        }
        assert(raw.skip(head.len() as int) =~= encode_utf8(rest)) by {
            assert forall|i: int| 0 <= i < rest.len() implies raw.skip(head.len() as int)[i]
                == encode_utf8(rest)[i] by {
                assert(text[i + head.len()] == rest[i]);
            }
        }
        let all = raw + x;
        assert(all.skip(head.len() as int) =~= encode_utf8(rest) + x);
        if is_reserved(bytes[0]) {
            assert(head[0] as u8 == all[0] && head[1] as u8 == all[1] && head[2] as u8 == all[2]);
            assert(starts_with_escape(all));
            assert(decode_bytes(all) =~= seq![bytes[0]] + decode_bytes(all.skip(3)));
        } else {
            assert(head[0] as u8 == all[0]);
            assert(all.drop_first() =~= all.skip(1));
            assert(decode_bytes(all) =~= seq![bytes[0]] + decode_bytes(all.skip(1)));
        }
        assert(seq![bytes[0]] + (bytes.drop_first() + decode_bytes(x)) =~= bytes + decode_bytes(x));
    } else {
        assert(raw + x =~= x);
        assert(bytes + decode_bytes(x) =~= decode_bytes(x));
    }
}

} // verus!
