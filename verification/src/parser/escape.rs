//! How text is written as a string, and the law that reading it back gives
//! the text.

use vstd::prelude::*;
use vstd::utf8::{
    decode_utf8, encode_scalar, encode_utf8, encode_utf8_decode_utf8, encode_utf8_valid_utf8,
    has_width_1_encoding, has_width_2_encoding, has_width_3_encoding, is_scalar,
};

use super::error::ParserError;
use super::parse_str::{
    ends_raw_chunk, escape_spec, no_chunk_end_between, parse_str_spec, raw_chunk_end,
    str_content_spec,
};
use super::parse_utf16_escape::{code_unit_spec, hex_value, is_hex_digit, utf16_escape_spec};
use super::holds_at;

verus! {

/// Whether `c` must be escaped inside a string: `"`, `\` and the C0 control
/// characters.
pub open spec fn needs_escape(c: char) -> bool {
    c == '"' || c == '\\' || (c as u32) < 0x20
}

/// The lowercase hexadecimal digit of `value`, below 16.
pub open spec fn hex_digit(value: u32) -> u8 {
    if value < 10 {
        (0x30 + value) as u8
    } else {
        (0x61 + value - 10) as u8
    }
}

/// How `c` is written inside a string: `\"`, `\\`, `\u00XX` for a control
/// character, and its UTF-8 encoding otherwise.
pub open spec fn escape_char(c: char) -> Seq<u8> {
    if c == '"' {
        seq![0x5cu8, 0x22]
    } else if c == '\\' {
        seq![0x5cu8, 0x5c]
    } else if (c as u32) < 0x20 {
        seq![0x5cu8, 0x75, 0x30, 0x30, hex_digit((c as u32) / 16), hex_digit((c as u32) % 16)]
    } else {
        encode_scalar(c as u32)
    }
}

/// How the characters `chars` are written inside a string.
pub open spec fn escape_chars(chars: Seq<char>) -> Seq<u8>
    decreases chars.len(),
{
    if chars.len() == 0 {
        Seq::empty()
    } else {
        escape_char(chars[0]) + escape_chars(chars.drop_first())
    }
}

/// The string that writes `chars`: its escaped characters between quotes.
pub open spec fn quote(chars: Seq<char>) -> Seq<u8> {
    seq![0x22u8] + escape_chars(chars) + seq![0x22u8]
}

proof fn lemma_escape_chars_concat(a: Seq<char>, b: Seq<char>)
    ensures
        escape_chars(a + b) == escape_chars(a) + escape_chars(b),
    decreases a.len(),
{
    if a.len() == 0 {
        assert(a + b =~= b);
        assert(escape_chars(a) + escape_chars(b) =~= escape_chars(b));
    } else {
        assert((a + b).drop_first() =~= a.drop_first() + b);
        lemma_escape_chars_concat(a.drop_first(), b);
        assert(escape_chars(a + b) =~= escape_chars(a) + escape_chars(b));
    }
}

proof fn lemma_escape_chars_plain(chars: Seq<char>)
    requires
        forall|i: int| 0 <= i < chars.len() ==> !needs_escape(#[trigger] chars[i]),
    ensures
        escape_chars(chars) == encode_utf8(chars),
    decreases chars.len(),
{
    if chars.len() > 0 {
        lemma_escape_chars_plain(chars.drop_first());
    }
}

/// No byte of the encoding of a character that needs no escape ends a raw
/// chunk.
proof fn lemma_plain_scalar_bytes(c: char)
    requires
        !needs_escape(c),
    ensures
        no_chunk_end_between(encode_scalar(c as u32), 0, encode_scalar(c as u32).len() as int),
{
    let v = c as u32;
    vstd::utf8::char_is_scalar(c);
    let bytes = encode_scalar(v);
    assert forall|x: u32| #![auto] (0x80u8 | (x & 0x3F) as u8) >= 0x80u8 by {
        assert((0x80u8 | (x & 0x3F) as u8) >= 0x80u8) by (bit_vector);
    }
    assert forall|x: u32| #![auto] (0x80u8 | ((x >> 6) & 0x3F) as u8) >= 0x80u8 by {
        assert((0x80u8 | ((x >> 6) & 0x3F) as u8) >= 0x80u8) by (bit_vector);
    }
    assert forall|x: u32| #![auto] (0x80u8 | ((x >> 12) & 0x3F) as u8) >= 0x80u8 by {
        assert((0x80u8 | ((x >> 12) & 0x3F) as u8) >= 0x80u8) by (bit_vector);
    }
    assert forall|x: u32| #![auto] (0xC0u8 | ((x >> 6) & 0x1F) as u8) >= 0x80u8 by {
        assert((0xC0u8 | ((x >> 6) & 0x1F) as u8) >= 0x80u8) by (bit_vector);
    }
    assert forall|x: u32| #![auto] (0xE0u8 | ((x >> 12) & 0x0F) as u8) >= 0x80u8 by {
        assert((0xE0u8 | ((x >> 12) & 0x0F) as u8) >= 0x80u8) by (bit_vector);
    }
    assert forall|x: u32| #![auto] (0xF0u8 | ((x >> 18) & 0x7) as u8) >= 0x80u8 by {
        assert((0xF0u8 | ((x >> 18) & 0x7) as u8) >= 0x80u8) by (bit_vector);
    }
    if has_width_1_encoding(v) {
        assert(v <= 0x7f ==> (v & 0x7F) as u8 == v) by (bit_vector);
        assert(bytes[0] == v);
    }
}

proof fn lemma_plain_chars_bytes(chars: Seq<char>)
    requires
        forall|i: int| 0 <= i < chars.len() ==> !needs_escape(#[trigger] chars[i]),
    ensures
        no_chunk_end_between(encode_utf8(chars), 0, encode_utf8(chars).len() as int),
    decreases chars.len(),
{
    if chars.len() > 0 {
        lemma_plain_scalar_bytes(chars[0]);
        lemma_plain_chars_bytes(chars.drop_first());
        let head = encode_scalar(chars[0] as u32);
        let bytes = encode_utf8(chars);
        assert forall|i: int| 0 <= i < bytes.len() implies !ends_raw_chunk(#[trigger] bytes[i]) by {
            if i < head.len() {
                assert(bytes[i] == head[i]);
            } else {
                assert(bytes[i] == encode_utf8(chars.drop_first())[i - head.len()]);
            }
        }
    }
}

proof fn lemma_hex_digit(value: u32)
    requires
        value < 16,
    ensures
        is_hex_digit(hex_digit(value)),
        hex_value(hex_digit(value)) == value,
{
}

/// Decoding the escape that writes a character that needs one gives the
/// character back, right after the escape.
proof fn lemma_escape_reads_back(src: Seq<u8>, pos: int, c: char)
    requires
        needs_escape(c),
        0 <= pos,
        pos + escape_char(c).len() <= src.len(),
        src.subrange(pos, pos + escape_char(c).len()) == escape_char(c),
    ensures
        escape_char(c)[0] == 0x5c,
        escape_spec(src, pos + 1) == Ok::<(char, int), ParserError>(
            (c, pos + escape_char(c).len()),
        ),
{
    let bytes = escape_char(c);
    assert(forall|i: int| 0 <= i < bytes.len() ==> src[pos + i] == #[trigger] bytes[i]) by {
        assert forall|i: int| 0 <= i < bytes.len() implies src[pos + i] == #[trigger] bytes[i] by {
            assert(src.subrange(pos, pos + bytes.len())[i] == bytes[i]);
        }
    }
    if c != '"' && c != '\\' {
        let v = c as u32;
        lemma_hex_digit(v / 16);
        lemma_hex_digit(v % 16);
        assert(src[pos + 1] == 0x75);
        assert(src[pos + 2] == 0x30 && src[pos + 3] == 0x30);
        assert(src[pos + 4] == hex_digit(v / 16) && src[pos + 5] == hex_digit(v % 16));
        let unit = (hex_value(src[pos + 2]) * 0x1000 + hex_value(src[pos + 3]) * 0x100 + hex_value(
            src[pos + 4],
        ) * 0x10 + hex_value(src[pos + 5])) as u16;
        assert(unit == v);
        assert(code_unit_spec(src, pos + 2) == Ok::<(u16, int), ParserError>((unit, pos + 6)));
        vstd::utf8::char_u32_cast(c, v);
        assert(unit as char == c);
    }
}

/// The first position at or after `from` of a character that needs an
/// escape, or the length when none does.
spec fn first_escape(chars: Seq<char>, from: int) -> int
    decreases chars.len() - from,
{
    if from < 0 || from >= chars.len() {
        chars.len() as int
    } else if needs_escape(chars[from]) {
        from
    } else {
        first_escape(chars, from + 1)
    }
}

proof fn lemma_first_escape(chars: Seq<char>, from: int)
    requires
        0 <= from <= chars.len(),
    ensures
        from <= first_escape(chars, from) <= chars.len(),
        first_escape(chars, from) < chars.len() ==> needs_escape(chars[first_escape(chars, from)]),
        forall|i: int| from <= i < first_escape(chars, from) ==> !needs_escape(#[trigger] chars[i]),
    decreases chars.len() - from,
{
    if from < chars.len() && !needs_escape(chars[from]) {
        lemma_first_escape(chars, from + 1);
    }
}

/// Reading the content of a string that writes `chars`, followed by the
/// closing `"`, gives `chars` back and stops after the `"`; its first chunk
/// ends at the closing `"` exactly when no character needed an escape.
proof fn lemma_content_reads_back(src: Seq<u8>, start: int, chars: Seq<char>)
    requires
        0 <= start,
        start + escape_chars(chars).len() < src.len(),
        src.subrange(start, start + escape_chars(chars).len()) == escape_chars(chars),
        src[start + escape_chars(chars).len()] == 0x22,
    ensures
        str_content_spec(src, start) == Ok::<(Seq<char>, int), ParserError>(
            (chars, start + escape_chars(chars).len() + 1),
        ),
        (raw_chunk_end(src, start) matches Some(end) && src[end] == 0x22) == (forall|i: int|
            0 <= i < chars.len() ==> !needs_escape(#[trigger] chars[i])),
    decreases chars.len(),
{
    let written = escape_chars(chars);
    lemma_first_escape(chars, 0);
    let k = first_escape(chars, 0);
    let raw = chars.subrange(0, k);
    let tail = chars.subrange(k, chars.len() as int);
    assert(raw + tail =~= chars);
    lemma_escape_chars_concat(raw, tail);
    assert forall|i: int| 0 <= i < raw.len() implies !needs_escape(#[trigger] raw[i]) by {
        assert(raw[i] == chars[i]);
    }
    lemma_escape_chars_plain(raw);
    lemma_plain_chars_bytes(raw);
    encode_utf8_valid_utf8(raw);
    encode_utf8_decode_utf8(raw);
    let plain = encode_utf8(raw);
    let end = start + plain.len();
    // The bytes of `src` from `start` on are `written`, then the closing `"`.
    assert forall|i: int| 0 <= i < written.len() implies src[start + i] == #[trigger] written[i] by {
        assert(src.subrange(start, start + written.len())[i] == written[i]);
    }
    assert forall|i: int| start <= i < end implies !ends_raw_chunk(#[trigger] src[i]) by {
        assert(src[i] == written[i - start]);
        assert(written[i - start] == plain[i - start]);
    }
    assert(src.subrange(start, end) =~= plain) by {
        assert forall|i: int| 0 <= i < plain.len() implies src.subrange(start, end)[i] == plain[i] by {
            assert(src[start + i] == written[i]);
        }
    }
    if k == chars.len() {
        assert(tail =~= Seq::<char>::empty());
        assert(written =~= plain);
        assert(ends_raw_chunk(src[end]));
        super::parse_str::lemma_raw_chunk_end_at(src, start, end);
        assert(raw =~= chars);
    } else {
        let c = chars[k];
        let rest = tail.drop_first();
        assert(tail =~= seq![c] + rest);
        lemma_escape_chars_concat(seq![c], rest);
        assert(escape_chars(seq![c]) =~= escape_char(c)) by {
            assert(seq![c].drop_first() =~= Seq::<char>::empty());
        }
        let escape = escape_char(c);
        let after = end + escape.len();
        assert(written =~= plain + escape + escape_chars(rest));
        assert(src.subrange(end, after) =~= escape) by {
            assert forall|i: int| 0 <= i < escape.len() implies src.subrange(end, after)[i]
                == escape[i] by {
                assert(src[end + i] == written[plain.len() + i]);
            }
        }
        lemma_escape_reads_back(src, end, c);
        assert(src[end] == written[plain.len() as int]);
        assert(ends_raw_chunk(src[end]));
        super::parse_str::lemma_raw_chunk_end_at(src, start, end);
        assert(src.subrange(after, after + escape_chars(rest).len()) =~= escape_chars(rest)) by {
            assert forall|i: int| 0 <= i < escape_chars(rest).len() implies src.subrange(
                after,
                after + escape_chars(rest).len(),
            )[i] == escape_chars(rest)[i] by {
                assert(src[after + i] == written[plain.len() + escape.len() + i]);
            }
        }
        lemma_content_reads_back(src, after, rest);
        assert(decode_utf8(plain) + seq![c] + rest =~= chars);
        assert(!(forall|i: int| 0 <= i < chars.len() ==> !needs_escape(#[trigger] chars[i])));
    }
}

/// Reading back the string that writes any characters gives those
/// characters, and stops right after the closing `"`: every text has a
/// string that reads as it. The string is borrowed from the input exactly
/// when no character needed an escape.
pub proof fn lemma_parse_str_reads_back_quoted(chars: Seq<char>, rest: Seq<u8>)
    ensures
        parse_str_spec(quote(chars) + rest, 0) == Ok::<(Seq<char>, bool, int), ParserError>(
            (
                chars,
                forall|i: int| 0 <= i < chars.len() ==> !needs_escape(#[trigger] chars[i]),
                quote(chars).len() as int,
            ),
        ),
{
    let written = escape_chars(chars);
    let src = quote(chars) + rest;
    assert(src[0] == 0x22);
    assert(src.subrange(1, 1 + written.len() as int) =~= written);
    assert(src[1 + written.len() as int] == 0x22);
    lemma_content_reads_back(src, 1, chars);
}

/// The four lowercase hexadecimal digits of a UTF-16 code unit.
pub open spec fn hex4(unit: u16) -> Seq<u8> {
    seq![
        hex_digit((unit / 0x1000) as u32),
        hex_digit(((unit / 0x100) % 16) as u32),
        hex_digit(((unit / 0x10) % 16) as u32),
        hex_digit((unit % 16) as u32),
    ]
}

/// What follows the first `\u` of the escape that writes `c`: the digits of
/// its code unit up to `U+FFFF`, and above it the digits of its high
/// surrogate, `\u` and the digits of its low surrogate.
pub open spec fn utf16_escape_digits(c: char) -> Seq<u8> {
    let v = c as u32;
    if v < 0x10000 {
        hex4(v as u16)
    } else {
        hex4((0xd800 + (v - 0x10000) / 0x400) as u16) + seq![0x5cu8, 0x75] + hex4(
            (0xdc00 + (v - 0x10000) % 0x400) as u16,
        )
    }
}

/// The four digits of a code unit read back as that code unit.
proof fn lemma_code_unit_reads_back(src: Seq<u8>, pos: int, unit: u16)
    requires
        holds_at(src, pos, hex4(unit)),
    ensures
        code_unit_spec(src, pos) == Ok::<(u16, int), ParserError>((unit, pos + 4)),
{
    let digits = hex4(unit);
    assert forall|i: int| 0 <= i < 4 implies src[pos + i] == #[trigger] digits[i] by {
        assert(src.subrange(pos, pos + 4)[i] == digits[i]);
    }
    lemma_hex_digit((unit / 0x1000) as u32);
    lemma_hex_digit(((unit / 0x100) % 16) as u32);
    lemma_hex_digit(((unit / 0x10) % 16) as u32);
    lemma_hex_digit((unit % 16) as u32);
    assert((unit / 0x1000) * 0x1000 + ((unit / 0x100) % 16) * 0x100 + ((unit / 0x10) % 16) * 0x10
        + unit % 16 == unit) by (bit_vector);
}

/// Every character has a `\u` escape, a single code unit or a surrogate
/// pair, and decoding it gives the character back, right after the escape.
pub proof fn lemma_utf16_escape_reads_back(src: Seq<u8>, start: int, pos: int, c: char)
    requires
        holds_at(src, pos, utf16_escape_digits(c)),
    ensures
        utf16_escape_spec(src, start, pos) == Ok::<(char, int), ParserError>(
            (c, pos + utf16_escape_digits(c).len()),
        ),
{
    let v = c as u32;
    let digits = utf16_escape_digits(c);
    vstd::utf8::char_is_scalar(c);
    vstd::utf8::char_u32_cast(c, v);
    assert forall|i: int| 0 <= i < digits.len() implies src[pos + i] == #[trigger] digits[i] by {
        assert(src.subrange(pos, pos + digits.len())[i] == digits[i]);
    }
    if v < 0x10000 {
        lemma_code_unit_reads_back(src, pos, v as u16);
        assert(!(0xd800 <= v <= 0xdfff));
    } else {
        let high = (0xd800 + (v - 0x10000) / 0x400) as u16;
        let low = (0xdc00 + (v - 0x10000) % 0x400) as u16;
        assert(src.subrange(pos, pos + 4) =~= hex4(high));
        lemma_code_unit_reads_back(src, pos, high);
        let pair = hex4(high) + seq![0x5cu8, 0x75];
        assert(digits == pair + hex4(low));
        assert(src[pos + 4] == digits[4] && digits[4] == pair[4]);
        assert(src[pos + 5] == digits[5] && digits[5] == pair[5]);
        assert(src.subrange(pos + 4, pos + 6) =~= seq![0x5cu8, 0x75]);
        assert forall|i: int| 0 <= i < 4 implies src[pos + 6 + i] == #[trigger] hex4(low)[i] by {
            assert(src[pos + 6 + i] == digits[6 + i]);
        }
        assert(src.subrange(pos + 6, pos + 10) =~= hex4(low));
        lemma_code_unit_reads_back(src, pos + 6, low);
        assert(0x10000 <= v <= 0x10ffff ==> 0xd800 + (v - 0x10000) / 0x400 <= 0xdbff
            && 0x10000 + ((0xd800 + (v - 0x10000) / 0x400) - 0xd800) * 0x400 + ((0xdc00 + (v
            - 0x10000) % 0x400) - 0xdc00) == v) by (bit_vector);
    }
}

} // verus!
