//! Strings: `"` characters `"`, with the escapes of RFC 8259.

use vstd::prelude::*;
use vstd::slice::slice_subrange;
use vstd::std_specs::bits::{axiom_u64_trailing_zeros, u64_trailing_zeros};
use vstd::utf8::{decode_utf8, valid_utf8};

use super::error::ParserError;
use super::parse_utf16_escape::{utf16_escape_error_pos, utf16_escape_spec};
use super::Parser;
use crate::text::{str_from_utf8, utf8_valid_up_to};

verus! {

/// Whether `byte` ends a raw chunk of a string: a C0 control character, a
/// `"` (terminator) or a `\` (escape).
pub open spec fn ends_raw_chunk(byte: u8) -> bool {
    byte <= 0x1f || byte == 0x22 || byte == 0x5c
}

/// `x - y`, wrapping around at the bounds of `u64`.
spec fn wrapping_sub_spec(x: u64, y: u64) -> u64 {
    if x - y < 0 {
        (x - y + 0x1_0000_0000_0000_0000) as u64
    } else {
        (x - y) as u64
    }
}

/// The little-endian word of eight bytes.
spec fn word_of(b0: u8, b1: u8, b2: u8, b3: u8, b4: u8, b5: u8, b6: u8, b7: u8) -> u64 {
    (b0 as u64) | ((b1 as u64) << 8u64) | ((b2 as u64) << 16u64) | ((b3 as u64) << 24u64) | ((
    b4 as u64) << 32u64) | ((b5 as u64) << 40u64) | ((b6 as u64) << 48u64) | ((b7 as u64)
        << 56u64)
}

/// The high bit of each byte of `word` that equals `needle` is set (bytes
/// above a matching one may be marked too).
spec fn mask_byte_spec(word: u64, needle: u8) -> u64 {
    let xor = word ^ ((needle as u64) * 0x0101_0101_0101_0101u64) as u64;
    wrapping_sub_spec(xor, 0x0101_0101_0101_0101u64) & !xor
}

/// The high bit of each byte of `word` that may end a raw chunk.
spec fn mask_raw_chunk_end_spec(word: u64) -> u64 {
    let is_ctrl = wrapping_sub_spec(word, 0x2020_2020_2020_2020u64) & !word;
    (is_ctrl | mask_byte_spec(word, 0x22) | mask_byte_spec(word, 0x5c)) & 0x8080_8080_8080_8080u64
}

/// Reading a word: lane `k` of the mask marks the first byte that ends a raw
/// chunk, the mask is empty when none does, and the high bits of the word
/// below lane `k` are clear exactly when those bytes are ASCII.
proof fn lemma_word_lanes(b0: u8, b1: u8, b2: u8, b3: u8, b4: u8, b5: u8, b6: u8, b7: u8, k: u64)
    requires
        k < 8,
    ensures
        ({
            let word = word_of(b0, b1, b2, b3, b4, b5, b6, b7);
            let mask = mask_raw_chunk_end_spec(word);
            let lane = ((word >> ((8 * k) as u64)) & 0xff) as u8;
            let clear_before = (k > 0 ==> !ends_raw_chunk(b0)) && (k > 1 ==> !ends_raw_chunk(b1))
                && (k > 2 ==> !ends_raw_chunk(b2)) && (k > 3 ==> !ends_raw_chunk(b3)) && (k > 4
                ==> !ends_raw_chunk(b4)) && (k > 5 ==> !ends_raw_chunk(b5)) && (k > 6
                ==> !ends_raw_chunk(b6));
            &&& (mask == 0) == (!ends_raw_chunk(b0) && !ends_raw_chunk(b1) && !ends_raw_chunk(b2)
                && !ends_raw_chunk(b3) && !ends_raw_chunk(b4) && !ends_raw_chunk(b5)
                && !ends_raw_chunk(b6) && !ends_raw_chunk(b7))
            &&& (mask & (0xffff_ffff_ffff_ffffu64 >> ((56 - 8 * k) as u64)) == 1u64 << ((8 * k + 7) as u64)) == (
            clear_before && ends_raw_chunk(lane))
        }),
{
    assert({
        let word = word_of(b0, b1, b2, b3, b4, b5, b6, b7);
        let mask = mask_raw_chunk_end_spec(word);
        let lane = ((word >> ((8 * k) as u64)) & 0xff) as u8;
        let clear_before = (k > 0 ==> !ends_raw_chunk(b0)) && (k > 1 ==> !ends_raw_chunk(b1))
            && (k > 2 ==> !ends_raw_chunk(b2)) && (k > 3 ==> !ends_raw_chunk(b3)) && (k > 4
            ==> !ends_raw_chunk(b4)) && (k > 5 ==> !ends_raw_chunk(b5)) && (k > 6
            ==> !ends_raw_chunk(b6));
        &&& k < 8 ==> (mask == 0) == (!ends_raw_chunk(b0) && !ends_raw_chunk(b1)
            && !ends_raw_chunk(b2) && !ends_raw_chunk(b3) && !ends_raw_chunk(b4)
            && !ends_raw_chunk(b5) && !ends_raw_chunk(b6) && !ends_raw_chunk(b7))
        &&& k < 8 ==> (mask & (0xffff_ffff_ffff_ffffu64 >> ((56 - 8 * k) as u64)) == 1u64 << ((8 * k + 7) as u64))
            == (clear_before && ends_raw_chunk(lane))
    }) by (bit_vector);
}


/// Reading a word: lane `k` holds byte `k`, and the high bits of the word
/// below lane `k` are clear exactly when those bytes are ASCII.
proof fn lemma_word_bytes(b0: u8, b1: u8, b2: u8, b3: u8, b4: u8, b5: u8, b6: u8, b7: u8, k: u64)
    requires
        k < 8,
    ensures
        ({
            let word = word_of(b0, b1, b2, b3, b4, b5, b6, b7);
            let lane = ((word >> ((8 * k) as u64)) & 0xff) as u8;
            &&& k == 0 ==> lane == b0
            &&& k == 1 ==> lane == b1
            &&& k == 2 ==> lane == b2
            &&& k == 3 ==> lane == b3
            &&& k == 4 ==> lane == b4
            &&& k == 5 ==> lane == b5
            &&& k == 6 ==> lane == b6
            &&& k == 7 ==> lane == b7
            &&& (word & 0x8080_8080_8080_8080u64 == 0) == (b0 < 0x80 && b1 < 0x80 && b2 < 0x80
                && b3 < 0x80 && b4 < 0x80 && b5 < 0x80 && b6 < 0x80 && b7 < 0x80)
            &&& (word & 0x8080_8080_8080_8080u64 & (((1u64 << ((8 * k) as u64)) - 1) as u64)
                == 0) == ((k > 0 ==> b0 < 0x80) && (k > 1 ==> b1 < 0x80) && (k > 2 ==> b2
                < 0x80) && (k > 3 ==> b3 < 0x80) && (k > 4 ==> b4 < 0x80) && (k > 5 ==> b5
                < 0x80) && (k > 6 ==> b6 < 0x80))
            &&& mask_raw_chunk_end_spec(word) & 0x7f7f_7f7f_7f7f_7f7fu64 == 0
        }),
{
    assert({
        let word = word_of(b0, b1, b2, b3, b4, b5, b6, b7);
        let lane = ((word >> ((8 * k) as u64)) & 0xff) as u8;
        &&& k == 0 ==> lane == b0
        &&& k == 1 ==> lane == b1
        &&& k == 2 ==> lane == b2
        &&& k == 3 ==> lane == b3
        &&& k == 4 ==> lane == b4
        &&& k == 5 ==> lane == b5
        &&& k == 6 ==> lane == b6
        &&& k == 7 ==> lane == b7
        &&& (word & 0x8080_8080_8080_8080u64 == 0) == (b0 < 0x80 && b1 < 0x80 && b2 < 0x80 && b3
            < 0x80 && b4 < 0x80 && b5 < 0x80 && b6 < 0x80 && b7 < 0x80)
        &&& k < 8 ==> (word & 0x8080_8080_8080_8080u64 & (((1u64 << ((8 * k) as u64)) - 1) as u64)
            == 0) == ((k > 0 ==> b0 < 0x80) && (k > 1 ==> b1 < 0x80) && (k > 2 ==> b2 < 0x80)
            && (k > 3 ==> b3 < 0x80) && (k > 4 ==> b4 < 0x80) && (k > 5 ==> b5 < 0x80) && (k > 6
            ==> b6 < 0x80))
        &&& mask_raw_chunk_end_spec(word) & 0x7f7f_7f7f_7f7f_7f7fu64 == 0
    }) by (bit_vector);
}

/// The lowest set bit of a non-empty mask that only holds high bits of
/// bytes lies in lane `trailing_zeros / 8`, at its high bit.
proof fn lemma_lowest_lane(mask: u64)
    requires
        mask != 0,
        mask & 0x7f7f_7f7f_7f7f_7f7fu64 == 0,
    ensures
        u64_trailing_zeros(mask) < 64,
        ({
            let k = (u64_trailing_zeros(mask) / 8) as u64;
            mask & (0xffff_ffff_ffff_ffffu64 >> ((56 - 8 * k) as u64)) == 1u64 << ((8 * k + 7) as u64)
        }),
{
    axiom_u64_trailing_zeros(mask);
    let t = u64_trailing_zeros(mask) as u64;
    let k = t / 8;
    assert((mask >> t) & 1u64 == 1u64);
    assert(t < 64 && (mask >> t) & 1u64 == 1u64 && mask & 0x7f7f_7f7f_7f7f_7f7fu64 == 0 ==> t % 8
        == 7) by (bit_vector);
    if k > 0 {
        assert((mask >> 7u64) & 1u64 == 0u64);
    }
    if k > 1 {
        assert((mask >> 15u64) & 1u64 == 0u64);
    }
    if k > 2 {
        assert((mask >> 23u64) & 1u64 == 0u64);
    }
    if k > 3 {
        assert((mask >> 31u64) & 1u64 == 0u64);
    }
    if k > 4 {
        assert((mask >> 39u64) & 1u64 == 0u64);
    }
    if k > 5 {
        assert((mask >> 47u64) & 1u64 == 0u64);
    }
    if k > 6 {
        assert((mask >> 55u64) & 1u64 == 0u64);
    }
    assert(k * 8 + 7 == t);
    assert((k < 8 && (k > 0 ==> (mask >> 7u64) & 1u64 == 0u64) && (k > 1 ==> (mask >> 15u64) & 1u64
        == 0u64) && (k > 2 ==> (mask >> 23u64) & 1u64 == 0u64) && (k > 3 ==> (mask >> 31u64) & 1u64
        == 0u64) && (k > 4 ==> (mask >> 39u64) & 1u64 == 0u64) && (k > 5 ==> (mask >> 47u64) & 1u64
        == 0u64) && (k > 6 ==> (mask >> 55u64) & 1u64 == 0u64) && (mask >> ((8 * k + 7) as u64))
        & 1u64 == 1u64 && mask & 0x7f7f_7f7f_7f7f_7f7fu64 == 0) ==> mask & (0xffff_ffff_ffff_ffffu64
        >> ((56 - 8 * k) as u64)) == 1u64 << ((8 * k + 7) as u64)) by (bit_vector);
}


/// No byte of `src[start..end]` ends a raw chunk.
pub open spec fn no_chunk_end_between(src: Seq<u8>, start: int, end: int) -> bool {
    forall|i: int| start <= i < end ==> !ends_raw_chunk(#[trigger] src[i])
}

/// Every byte of `src[start..end]` is ASCII.
pub open spec fn ascii_between(src: Seq<u8>, start: int, end: int) -> bool {
    forall|i: int| start <= i < end ==> #[trigger] src[i] < 0x80
}

/// Marks the bytes of `word` that equal `needle` in their high bit.
///
/// Example: (Only showing 5/8 bytes)
/// ```text
/// needle: "  (0x22)
/// chars : a         "         b         "         c
/// bytes : 0110_0001 0010_0010 0110_0010 0010_0010 0110_0011
/// result: 0???_???? 1???_???? 0???_???? 1???_???? 0???_????   (only first bit relevant, '?' is noise)
/// ```
fn mask_byte(word: u64, needle: u8) -> (mask: u64)
    ensures
        mask == mask_byte_spec(word, needle),
{
    // needle = 0x22
    // byte ^ needle - 0x01 & !xor -> highest bit
    // 0x22   0x00     0xff   0xff    1 (matches needle)
    // 0x60   0x42     0x41   0x01    0 (does not match)
    let needles = (needle as u64) * 0x0101_0101_0101_0101;  // broadcast needle to each byte
    let xor = word ^ needles;
    xor.wrapping_sub(0x0101_0101_0101_0101) & !xor
}

/// Marks the bytes of `word` that are candidates to end a raw chunk.
///
/// Example:
/// ```text
/// chars: a   "   b   \   c   \n  d   e
/// bytes: 61  22  62  5c  63  0a  64  65
/// mask : 00  80  00  80  00  80  00  00   (0x80 = high bit set)
/// ```
fn mask_raw_chunk_end(word: u64) -> (mask: u64)
    ensures
        mask == mask_raw_chunk_end_spec(word),
{
    // `A - 0x20` wraps to 0xe0..=0xff when A < 0x20 -> high bit = 1.
    // For A >= 0xa0 the high bit is set without wrapping (0xa0 - 0x20 = 0x80),
    // so `& !word` clears those high bits.
    let is_ctrl = word.wrapping_sub(0x2020_2020_2020_2020) & !word;
    // OR the three masks, then keep only the high bit of each lane, giving one
    // flag per byte.
    (is_ctrl | mask_byte(word, 0x22) | mask_byte(word, 0x5c)) & 0x8080_8080_8080_8080
}

/// Returns whether `byte` ends a raw chunk.
fn ends_raw_chunk_exec(byte: u8) -> (ends: bool)
    ensures
        ends == ends_raw_chunk(byte),
{
    byte <= 0x1f || byte == 0x22 || byte == 0x5c
}

/// Finds the end of the raw chunk starting at the front of `bytes`.
///
/// A raw chunk is a run of bytes that ends at the first byte needing special
/// handling: a C0 control character, a `"` (terminator) or a `\` (escape).
///
/// Returns `(chunk_len, is_ascii)`: the position of the byte that ends the
/// chunk, and whether the chunk holds only ASCII bytes; `None` when no byte
/// ends it.
fn find_raw_chunk_end(bytes: &[u8]) -> (res: Option<(usize, bool)>)
    ensures
        match res {
            Some((len, is_ascii)) => {
                &&& len < bytes@.len()
                &&& ends_raw_chunk(bytes@[len as int])
                &&& no_chunk_end_between(bytes@, 0, len as int)
                &&& is_ascii == ascii_between(bytes@, 0, len as int)
            },
            None => no_chunk_end_between(bytes@, 0, bytes@.len() as int),
        },
{
    let n = bytes.len();
    let mut byte_idx: usize = 0;
    let mut all_ascii = true;

    while n - byte_idx >= 8
        invariant
            n == bytes@.len(),
            byte_idx <= n,
            no_chunk_end_between(bytes@, 0, byte_idx as int),
            all_ascii == ascii_between(bytes@, 0, byte_idx as int),
        decreases n - byte_idx,
    {
        let b0 = bytes[byte_idx];
        let b1 = bytes[byte_idx + 1];
        let b2 = bytes[byte_idx + 2];
        let b3 = bytes[byte_idx + 3];
        let b4 = bytes[byte_idx + 4];
        let b5 = bytes[byte_idx + 5];
        let b6 = bytes[byte_idx + 6];
        let b7 = bytes[byte_idx + 7];
        let word = (b0 as u64) | ((b1 as u64) << 8u64) | ((b2 as u64) << 16u64) | ((b3 as u64)
            << 24u64) | ((b4 as u64) << 32u64) | ((b5 as u64) << 40u64) | ((b6 as u64) << 48u64)
            | ((b7 as u64) << 56u64);
        assert(word == word_of(b0, b1, b2, b3, b4, b5, b6, b7));
        let mask_end_candidates = mask_raw_chunk_end(word);
        proof {
            lemma_word_lanes(b0, b1, b2, b3, b4, b5, b6, b7, 0);
            lemma_word_bytes(b0, b1, b2, b3, b4, b5, b6, b7, 0);
        }

        // Check if the word contains any bytes that could end the raw chunk
        if mask_end_candidates != 0 {
            proof {
                lemma_lowest_lane(mask_end_candidates);
            }
            let lane = (mask_end_candidates.trailing_zeros() / 8) as usize;
            let k = lane as u64;
            proof {
                lemma_word_lanes(b0, b1, b2, b3, b4, b5, b6, b7, k);
                lemma_word_bytes(b0, b1, b2, b3, b4, b5, b6, b7, k);
                let s = bytes@;
                let i0 = byte_idx as int;
                assert(ends_raw_chunk(s[i0 + lane])) by {
                    if lane == 0 {
                    } else if lane == 1 {
                    } else if lane == 2 {
                    } else if lane == 3 {
                    } else if lane == 4 {
                    } else if lane == 5 {
                    } else if lane == 6 {
                    } else {
                    }
                }
                assert forall|i: int| 0 <= i < i0 + lane implies !ends_raw_chunk(#[trigger] s[i]) by {
                    if i >= i0 {
                        assert(i - i0 < lane);
                    }
                }
            }
            assert(k < 8 ==> (1u64 << ((8 * k) as u64)) >= 1u64) by (bit_vector);
            let below_is_ascii = lane == 0 || word & 0x8080_8080_8080_8080 & ((1u64 << (8 * k))
                - 1) == 0;
            proof {
                let s = bytes@;
                let i0 = byte_idx as int;
                assert(below_is_ascii == ascii_between(s, i0, i0 + lane)) by {
                    if below_is_ascii {
                        assert forall|i: int| i0 <= i < i0 + lane implies #[trigger] s[i] < 0x80 by {
                            assert(i - i0 < lane);
                        }
                    } else {
                        assert(lane > 0);
                        assert(!(word & 0x8080_8080_8080_8080u64 & (((1u64 << ((8 * k) as u64)) - 1) as u64) == 0));
                        if ascii_between(s, i0, i0 + lane) {
                            assert(s[i0] < 0x80);
                            if lane > 1 { assert(s[i0 + 1] < 0x80); }
                            if lane > 2 { assert(s[i0 + 2] < 0x80); }
                            if lane > 3 { assert(s[i0 + 3] < 0x80); }
                            if lane > 4 { assert(s[i0 + 4] < 0x80); }
                            if lane > 5 { assert(s[i0 + 5] < 0x80); }
                            if lane > 6 { assert(s[i0 + 6] < 0x80); }
                        }
                    }
                }
            }
            return Some((byte_idx + lane, all_ascii && below_is_ascii));
        }
        proof {
            let s = bytes@;
            let i0 = byte_idx as int;
            assert forall|i: int| 0 <= i < i0 + 8 implies !ends_raw_chunk(#[trigger] s[i]) by {
                if i >= i0 {
                    assert(i - i0 < 8);
                }
            }
            let word_ascii = word & 0x8080_8080_8080_8080 == 0;
            if word_ascii {
                assert forall|i: int| i0 <= i < i0 + 8 implies #[trigger] s[i] < 0x80 by {
                    assert(i - i0 < 8);
                }
            } else if ascii_between(s, i0, i0 + 8) {
                assert(s[i0] < 0x80 && s[i0 + 1] < 0x80 && s[i0 + 2] < 0x80 && s[i0 + 3] < 0x80
                    && s[i0 + 4] < 0x80 && s[i0 + 5] < 0x80 && s[i0 + 6] < 0x80 && s[i0 + 7]
                    < 0x80);
            }
        }
        all_ascii = all_ascii && word & 0x8080_8080_8080_8080 == 0;
        byte_idx = byte_idx + 8;
    }

    while byte_idx < n
        invariant
            n == bytes@.len(),
            byte_idx <= n,
            no_chunk_end_between(bytes@, 0, byte_idx as int),
            all_ascii == ascii_between(bytes@, 0, byte_idx as int),
        decreases n - byte_idx,
    {
        let byte = bytes[byte_idx];
        if byte >= 0x80 {
            all_ascii = false;
        } else if ends_raw_chunk_exec(byte) {
            return Some((byte_idx, all_ascii));
        }
        byte_idx = byte_idx + 1;
    }

    None
}


/// The position of the first byte at or after `pos` that ends a raw chunk.
pub open spec fn raw_chunk_end(src: Seq<u8>, pos: int) -> Option<int>
    decreases src.len() - pos,
{
    if pos < 0 || pos >= src.len() {
        None
    } else if ends_raw_chunk(src[pos]) {
        Some(pos)
    } else {
        raw_chunk_end(src, pos + 1)
    }
}

/// What decoding the escape sequence whose `\` stands right before `pos`
/// gives: the character and the position after the sequence.
pub open spec fn escape_spec(src: Seq<u8>, pos: int) -> Result<(char, int), ParserError> {
    if pos < 0 || pos >= src.len() {
        Err(ParserError::UnterminatedString { pos: pos as usize })
    } else {
        let byte = src[pos];
        if byte == 0x22 {
            Ok(('"', pos + 1))
        } else if byte == 0x5c {
            Ok(('\\', pos + 1))
        } else if byte == 0x2f {
            Ok(('/', pos + 1))
        } else if byte == 0x62 {
            Ok(('\u{0008}', pos + 1))
        } else if byte == 0x66 {
            Ok(('\u{000c}', pos + 1))
        } else if byte == 0x6e {
            Ok(('\n', pos + 1))
        } else if byte == 0x72 {
            Ok(('\r', pos + 1))
        } else if byte == 0x74 {
            Ok(('\t', pos + 1))
        } else if byte == 0x75 {
            utf16_escape_spec(src, pos, pos + 1)
        } else {
            Err(ParserError::InvalidEscape { pos: pos as usize, msg: "unknown escape sequence" })
        }
    }
}

/// What reading the content of a string from the raw chunk that starts at
/// `start` on gives: the characters up to the closing `"` and the position
/// after it.
///
/// The content is a sequence of raw chunks separated by escape sequences.
/// Each chunk is checked in turn: it must be terminated, must not end at a
/// control character, and must be valid UTF-8; then its escape is decoded.
pub open spec fn str_content_spec(src: Seq<u8>, start: int) -> Result<(Seq<char>, int), ParserError>
    decreases src.len() - start,
{
    match raw_chunk_end(src, start) {
        None => Err(ParserError::UnterminatedString { pos: src.len() as usize }),
        Some(end) => {
            let byte = src[end];
            let chunk = src.subrange(start, end);
            if byte <= 0x1f {
                Err(ParserError::ControlCharacter { pos: end as usize, byte })
            } else if !valid_utf8(chunk) {
                Err(ParserError::InvalidUtf8 { pos: (start + utf8_valid_up_to(chunk)) as usize })
            } else if byte == 0x22 {
                Ok((decode_utf8(chunk), end + 1))
            } else {
                match escape_spec(src, end + 1) {
                    Err(error) => Err(error),
                    Ok((c, next)) => if start < next <= src.len() {
                        match str_content_spec(src, next) {
                            Err(error) => Err(error),
                            Ok((rest, after)) => Ok((decode_utf8(chunk) + seq![c] + rest, after)),
                        }
                    } else {
                        Err(ParserError::UnterminatedString { pos: next as usize })
                    },
                }
            }
        },
    }
}

/// What reading a string at `pos` gives: its characters, whether it holds no
/// escape (so that it can be borrowed from the input), and the position after
/// its closing `"`.
pub open spec fn parse_str_spec(src: Seq<u8>, pos: int) -> Result<(Seq<char>, bool, int), ParserError> {
    if !(0 <= pos < src.len() && src[pos] == 0x22) {
        Err(ParserError::Expected { pos: pos as usize, expected: "`\"`" })
    } else {
        match str_content_spec(src, pos + 1) {
            Err(error) => Err(error),
            Ok((chars, after)) => Ok(
                (
                    chars,
                    raw_chunk_end(src, pos + 1) matches Some(end) && src[end] == 0x22,
                    after,
                ),
            ),
        }
    }
}

/// Where the reader stands after decoding the escape sequence whose `\`
/// stands right before `pos` failed: at `pos` when the input ends there,
/// after the byte at `pos` when it is no escape, and where decoding a `\u`
/// escape stopped otherwise.
pub open spec fn escape_error_pos(src: Seq<u8>, pos: int) -> int {
    if pos < 0 || pos >= src.len() {
        pos
    } else if src[pos] == 0x75 {
        utf16_escape_error_pos(src, pos + 1)
    } else {
        pos + 1
    }
}

/// Where the reader stands after reading the content of a string from the
/// raw chunk at `start` on failed, when it stood at `start`: at the start of
/// the chunk that is unterminated, ends at a control character or is not
/// valid UTF-8, and where decoding an escape stopped when the escape is
/// invalid.
pub open spec fn str_content_error_pos(src: Seq<u8>, start: int) -> int
    decreases src.len() - start,
{
    match raw_chunk_end(src, start) {
        None => start,
        Some(end) => if src[end] <= 0x1f || !valid_utf8(src.subrange(start, end)) || src[end]
            == 0x22 {
            start
        } else {
            match escape_spec(src, end + 1) {
                Err(_) => escape_error_pos(src, end + 1),
                Ok((_, next)) => if start < next <= src.len() {
                    str_content_error_pos(src, next)
                } else {
                    next
                },
            }
        },
    }
}

/// Where the reader stands after reading a string at `pos` failed: at `pos`
/// when no `"` opens it, after the closing `"` when the string holds no
/// escape, and where reading its content stopped otherwise.
pub open spec fn parse_str_error_pos(src: Seq<u8>, pos: int) -> int {
    if !(0 <= pos < src.len() && src[pos] == 0x22) {
        pos
    } else {
        match raw_chunk_end(src, pos + 1) {
            Some(end) => if src[end] == 0x22 {
                end + 1
            } else {
                str_content_error_pos(src, pos + 1)
            },
            None => str_content_error_pos(src, pos + 1),
        }
    }
}

/// Prepends `prefix` to the characters of a successful result.
pub open spec fn prepend(prefix: Seq<char>, res: Result<(Seq<char>, int), ParserError>) -> Result<
    (Seq<char>, int),
    ParserError,
> {
    match res {
        Ok((chars, after)) => Ok((prefix + chars, after)),
        Err(error) => Err(error),
    }
}

/// The end of the raw chunk at `start` is the first byte that ends one.
proof fn lemma_raw_chunk_end(src: Seq<u8>, start: int, end: int)
    requires
        0 <= start <= end <= src.len(),
        no_chunk_end_between(src, start, end),
    ensures
        end < src.len() && ends_raw_chunk(src[end]) ==> raw_chunk_end(src, start) == Some(end),
        end == src.len() ==> raw_chunk_end(src, start) is None,
    decreases end - start,
{
    if start < end {
        lemma_raw_chunk_end(src, start + 1, end);
    }
}

/// The raw chunk at `start` ends at `end` when no byte before it ends one and
/// the byte at `end` does.
pub proof fn lemma_raw_chunk_end_at(src: Seq<u8>, start: int, end: int)
    requires
        0 <= start <= end < src.len(),
        no_chunk_end_between(src, start, end),
        ends_raw_chunk(src[end]),
    ensures
        raw_chunk_end(src, start) == Some(end),
{
    lemma_raw_chunk_end(src, start, end);
}

/// A string: borrowed from the input when it holds no escape, owned
/// otherwise.
pub enum ParsedStr<'src> {
    Borrowed(&'src str),
    Owned(String),
}

impl<'src> View for ParsedStr<'src> {
    type V = Seq<char>;

    open spec fn view(&self) -> Seq<char> {
        match self {
            ParsedStr::Borrowed(text) => text@,
            ParsedStr::Owned(text) => text@,
        }
    }
}

impl<'src> ParsedStr<'src> {
    /// The text of the string.
    pub fn as_str(&self) -> (text: &str)
        ensures
            text@ == self@,
    {
        match self {
            ParsedStr::Borrowed(text) => text,
            ParsedStr::Owned(text) => text.as_str(),
        }
    }
}

/// All-ASCII bytes are valid UTF-8 and decode to the same characters.
proof fn lemma_ascii_valid_utf8(bytes: Seq<u8>)
    requires
        ascii_between(bytes, 0, bytes.len() as int),
    ensures
        valid_utf8(bytes),
    decreases bytes.len(),
{
    vstd::utf8::partial_valid_utf8_extend_ascii_block(bytes, 0, bytes.len() as int);
    assert(bytes.subrange(0, 0) =~= Seq::<u8>::empty());
    assert(bytes.subrange(0, bytes.len() as int) =~= bytes);
}

impl<'src> Parser<'src> {
    /// Parses a string.
    ///
    /// Accepts all valid [RFC 8259 (Json)](https://www.rfc-editor.org/rfc/rfc8259#section-7)
    /// strings, except broken UTF-16 escape pairs.
    ///
    /// ## Grammar:
    /// ```text
    /// string           = '"' char* '"'
    /// char             = unescaped | escape
    /// unescaped        = any character except '"', '\\' and the C0 control characters
    /// escape           = utf16_code_point | '\\' ( '"' | '\\' | '/' | 'b' | 'f' | 'n' | 'r' | 't')
    /// utf16_code_point = utf16_code_unit | utf16_code_unit utf16_code_unit
    /// utf16_code_unit  = '\\' 'u' hex hex hex hex
    /// hex              = '0'-'9' | 'a'-'f' | 'A'-'F'
    /// ```
    ///
    /// ## Returns
    /// An owned String when the string contains escapes, a borrowed str otherwise.
    ///
    /// ## Errors
    /// - The string does not start with `"` or has no closing `"`.
    /// - String contains an unescaped control character.
    /// - String contains invalid utf8
    /// - String contains an invalid escape or UTF-16 escape
    pub fn parse_str(&mut self) -> (res: Result<ParsedStr<'src>, ParserError>)
        ensures
            final(self).input() == old(self).input(),
            old(self).position() <= final(self).position() <= final(self).input().len(),
            match parse_str_spec(old(self).input(), old(self).position()) {
                Ok((chars, borrowed, after)) => {
                    &&& res matches Ok(parsed) && parsed@ == chars && (parsed is Borrowed
                        <==> borrowed)
                    &&& final(self).position() == after
                },
                Err(error) => res == Err::<ParsedStr<'src>, ParserError>(error)
                    && final(self).position() == parse_str_error_pos(
                    old(self).input(),
                    old(self).position(),
                ),
            },
    {
        let src = self.src();
        self.expect(0x22, "`\"`")?;
        let content_start = self.pos();

        let (chunk_len, chunk_is_ascii) = match find_raw_chunk_end(
            slice_subrange(src, content_start, src.len()),
        ) {
            Some(found) => found,
            None => {
                proof {
                    let rest = src@.subrange(content_start as int, src@.len() as int);
                    assert forall|i: int| content_start <= i < src@.len() implies !ends_raw_chunk(
                        #[trigger] src@[i],
                    ) by {
                        assert(src@[i] == rest[i - content_start]);
                    }
                    lemma_raw_chunk_end(src@, content_start as int, src@.len() as int);
                }
                return Err(ParserError::UnterminatedString { pos: src.len() });
            },
        };
        let content_end = content_start + chunk_len;
        let ghost chunk = src@.subrange(content_start as int, content_end as int);
        proof {
            let rest = src@.subrange(content_start as int, src@.len() as int);
            assert(src@[content_end as int] == rest[chunk_len as int]);
            assert forall|i: int| content_start <= i < content_end implies !ends_raw_chunk(
                #[trigger] src@[i],
            ) by {
                assert(src@[i] == rest[i - content_start]);
            }
            assert forall|i: int| 0 <= i < chunk.len() implies !ends_raw_chunk(#[trigger] chunk[i])
                && (chunk_is_ascii ==> chunk[i] < 0x80) by {
                assert(chunk[i] == rest[i]);
            }
            if chunk_is_ascii {
                assert forall|i: int| content_start <= i < content_end implies #[trigger] src@[i]
                    < 0x80 by {
                    assert(src@[i] == rest[i - content_start]);
                }
            }
            if !chunk_is_ascii {
                let j = choose|j: int| 0 <= j < chunk_len && !(rest[j] < 0x80);
                assert(!(chunk[j] < 0x80));
            }
            lemma_raw_chunk_end(src@, content_start as int, content_end as int);
        }

        let byte = src[content_end];
        if byte == 0x22 {
            // string is a single raw chunk (no escapes) -> return borrowed
            self.set_pos(content_end + 1);
            let text = self.decode_raw_chunk(
                slice_subrange(src, content_start, content_end),
                chunk_is_ascii,
                content_start,
            )?;
            Ok(ParsedStr::Borrowed(text))
        } else if byte == 0x5c {
            // at least 1 escape -> allocate & decode
            self.parse_escape_chunks(content_start, content_end, chunk_is_ascii)
        } else {
            // unescaped control char
            Err(ParserError::ControlCharacter { pos: content_end, byte })
        }
    }

    /// Parses a string as a sequence of chunks separated by escape sequences.
    ///
    /// # Arguments
    /// - `content_start`       : Position after the opening `"`
    /// - `pos_backslash`       : The start of the first `\` in the string
    /// - `first_chunk_is_ascii`: Whether the first raw chunk is entirely ascii.
    ///
    /// On success the reader stands after the closing `"`.
    fn parse_escape_chunks(
        &mut self,
        content_start: usize,
        pos_backslash: usize,
        first_chunk_is_ascii: bool,
    ) -> (res: Result<ParsedStr<'src>, ParserError>)
        requires
            old(self).position() == content_start,
            content_start <= pos_backslash < old(self).input().len(),
            old(self).input()[pos_backslash as int] == 0x5c,
            raw_chunk_end(old(self).input(), content_start as int) == Some(pos_backslash as int),
            first_chunk_is_ascii ==> ascii_between(
                old(self).input(),
                content_start as int,
                pos_backslash as int,
            ),
        ensures
            final(self).input() == old(self).input(),
            old(self).position() <= final(self).position() <= final(self).input().len(),
            match str_content_spec(old(self).input(), content_start as int) {
                Ok((chars, after)) => {
                    &&& res matches Ok(ParsedStr::Owned(text)) && text@ == chars
                    &&& final(self).position() == after
                },
                Err(error) => res == Err::<ParsedStr<'src>, ParserError>(error)
                    && final(self).position() == str_content_error_pos(
                    old(self).input(),
                    content_start as int,
                ),
            },
    {
        let src = self.src();
        let n = src.len();
        self.scratch_clear();

        let mut chunk_start = content_start;
        let mut chunk_end = pos_backslash;  // pos of the char that ends the current chunk
        let mut chunk_is_ascii = first_chunk_is_ascii;
        proof {
            assert(Seq::<char>::empty() + str_content_spec(src@, content_start as int)->Ok_0.0
                =~= str_content_spec(src@, content_start as int)->Ok_0.0);
        }
        loop
            invariant
                self.input() == src@,
                n == src@.len(),
                old(self).input() == src@,
                old(self).position() <= self.position() <= src@.len(),
                old(self).position() <= content_start <= chunk_start <= chunk_end < src@.len(),
                src@[chunk_end as int] == 0x5c,
                raw_chunk_end(src@, chunk_start as int) == Some(chunk_end as int),
                chunk_is_ascii ==> ascii_between(src@, chunk_start as int, chunk_end as int),
                str_content_spec(src@, content_start as int) == prepend(
                    self.scratch_chars(),
                    str_content_spec(src@, chunk_start as int),
                ),
                self.position() == chunk_start,
                str_content_error_pos(src@, content_start as int) == str_content_error_pos(
                    src@,
                    chunk_start as int,
                ),
            decreases src@.len() - chunk_start,
        {
            let ghost scratch_before = self.scratch_chars();
            let ghost chunk = src@.subrange(chunk_start as int, chunk_end as int);
            // Decode & push the finished chunk
            self.scratch_raw_chunk(
                slice_subrange(src, chunk_start, chunk_end),
                chunk_is_ascii,
                chunk_start,
            )?;

            // Parse the escape sequence
            self.set_pos(chunk_end + 1);
            let escaped = self.parse_escaped_char()?;
            self.scratch_push(escaped);
            let next_start = self.pos();
            proof {
                assert(valid_utf8(chunk));
                assert(str_content_error_pos(src@, chunk_start as int) == str_content_error_pos(
                    src@,
                    next_start as int,
                ));
                let rest = str_content_spec(src@, next_start as int);
                assert(str_content_spec(src@, chunk_start as int) == prepend(
                    decode_utf8(chunk) + seq![escaped],
                    rest,
                ));
                if rest is Ok {
                    assert(scratch_before + (decode_utf8(chunk) + seq![escaped] + rest->Ok_0.0)
                        =~= self.scratch_chars() + rest->Ok_0.0);
                }
            }

            // Find the end of the next chunk
            let (next_chunk_len, next_is_ascii) = match find_raw_chunk_end(
                slice_subrange(src, next_start, src.len()),
            ) {
                Some(found) => found,
                None => {
                    proof {
                        let rest = src@.subrange(next_start as int, src@.len() as int);
                        assert forall|i: int|
                            next_start <= i < src@.len() implies !ends_raw_chunk(
                            #[trigger] src@[i],
                        ) by {
                            assert(src@[i] == rest[i - next_start]);
                        }
                        lemma_raw_chunk_end(src@, next_start as int, src@.len() as int);
                        assert(str_content_error_pos(src@, next_start as int) == next_start);
                    }
                    return Err(ParserError::UnterminatedString { pos: src.len() });
                },
            };
            let next_end = next_start + next_chunk_len;
            proof {
                let rest = src@.subrange(next_start as int, src@.len() as int);
                assert(src@[next_end as int] == rest[next_chunk_len as int]);
                assert forall|i: int| next_start <= i < next_end implies !ends_raw_chunk(
                    #[trigger] src@[i],
                ) by {
                    assert(src@[i] == rest[i - next_start]);
                }
                if next_is_ascii {
                    assert forall|i: int| next_start <= i < next_end implies #[trigger] src@[i]
                        < 0x80 by {
                        assert(src@[i] == rest[i - next_start]);
                    }
                }
                lemma_raw_chunk_end(src@, next_start as int, next_end as int);
            }
            chunk_start = next_start;
            chunk_end = next_end;
            chunk_is_ascii = next_is_ascii;

            let byte = src[chunk_end];
            if byte == 0x5c {
                // found an escape sequence
            } else if byte == 0x22 {
                // string terminated & no further escapes found
                let ghost last = src@.subrange(chunk_start as int, chunk_end as int);
                let ghost scratch_now = self.scratch_chars();
                assert(str_content_error_pos(src@, chunk_start as int) == chunk_start);
                self.scratch_raw_chunk(
                    slice_subrange(src, chunk_start, chunk_end),
                    chunk_is_ascii,
                    chunk_start,
                )?;
                self.set_pos(chunk_end + 1);
                proof {
                    assert(str_content_spec(src@, chunk_start as int) == Ok::<
                        (Seq<char>, int),
                        ParserError,
                    >((decode_utf8(last), chunk_end + 1)));
                }
                return Ok(ParsedStr::Owned(self.scratch_text()));
            } else {
                return Err(ParserError::ControlCharacter { pos: chunk_end, byte });
            }
        }
    }

    /// Appends a raw chunk, which starts at `chunk_start` in the input, to the
    /// scratch buffer; `is_ascii` tells whether it holds only ASCII bytes.
    fn scratch_raw_chunk(&mut self, chunk: &[u8], is_ascii: bool, chunk_start: usize) -> (res:
        Result<(), ParserError>)
        requires
            chunk_start + chunk@.len() <= usize::MAX,
            is_ascii ==> ascii_between(chunk@, 0, chunk@.len() as int),
        ensures
            final(self).input() == old(self).input(),
            final(self).position() == old(self).position(),
            valid_utf8(chunk@) ==> res is Ok && final(self).scratch_chars() == old(
                self).scratch_chars() + decode_utf8(chunk@),
            !valid_utf8(chunk@) ==> res == Err::<(), ParserError>(
                ParserError::InvalidUtf8 { pos: (chunk_start + utf8_valid_up_to(chunk@)) as usize },
            ),
    {
        let text = self.decode_raw_chunk(chunk, is_ascii, chunk_start)?;
        self.scratch_push_str(text);
        Ok(())
    }

    /// Decodes an escape sequence to a char; the reader stands on the byte
    /// behind the `\`.
    pub fn parse_escaped_char(&mut self) -> (res: Result<char, ParserError>)
        ensures
            final(self).input() == old(self).input(),
            final(self).scratch_chars() == old(self).scratch_chars(),
            old(self).position() <= final(self).position() <= final(self).input().len(),
            match escape_spec(old(self).input(), old(self).position()) {
                Ok((c, after)) => res == Ok::<char, ParserError>(c) && final(self).position()
                    == after,
                Err(error) => res == Err::<char, ParserError>(error) && final(self).position()
                    == escape_error_pos(old(self).input(), old(self).position()),
            },
    {
        let start = self.pos();
        let byte = match self.next() {
            Some(byte) => byte,
            None => return Err(ParserError::UnterminatedString { pos: start }),
        };

        if byte == 0x22 {
            Ok('"')
        } else if byte == 0x5c {
            Ok('\\')
        } else if byte == 0x2f {
            Ok('/')
        } else if byte == 0x62 {
            Ok('\u{0008}')
        } else if byte == 0x66 {
            Ok('\u{000c}')
        } else if byte == 0x6e {
            Ok('\n')
        } else if byte == 0x72 {
            Ok('\r')
        } else if byte == 0x74 {
            Ok('\t')
        } else if byte == 0x75 {
            self.parse_escaped_utf16_char(start)
        } else {
            Err(ParserError::InvalidEscape { pos: start, msg: "unknown escape sequence" })
        }
    }

    /// Decodes a raw chunk that starts at `chunk_start` in the input;
    /// `is_ascii` tells whether it holds only ASCII bytes, which cannot fail
    /// to decode.
    fn decode_raw_chunk<'a>(&self, chunk: &'a [u8], is_ascii: bool, chunk_start: usize) -> (res:
        Result<&'a str, ParserError>)
        requires
            chunk_start + chunk@.len() <= usize::MAX,
            is_ascii ==> ascii_between(chunk@, 0, chunk@.len() as int),
        ensures
            valid_utf8(chunk@) ==> (res matches Ok(text) && text@ == decode_utf8(chunk@)),
            !valid_utf8(chunk@) ==> res == Err::<&'a str, ParserError>(
                ParserError::InvalidUtf8 { pos: (chunk_start + utf8_valid_up_to(chunk@)) as usize },
            ),
    {
        if is_ascii {
            // The entire chunk is ascii -> valid utf8
            proof {
                lemma_ascii_valid_utf8(chunk@);
            }
        }
        Self::decode_utf8(chunk, chunk_start)
    }

    /// Decodes `bytes` as UTF-8, pointing at `pos` when it reports invalid input.
    pub fn decode_utf8(bytes: &[u8], pos: usize) -> (res: Result<&str, ParserError>)
        requires
            pos + bytes@.len() <= usize::MAX,
        ensures
            valid_utf8(bytes@) ==> (res matches Ok(text) && text@ == decode_utf8(bytes@)),
            !valid_utf8(bytes@) ==> res == Err::<&str, ParserError>(
                ParserError::InvalidUtf8 { pos: (pos + utf8_valid_up_to(bytes@)) as usize },
            ),
    {
        match str_from_utf8(bytes) {
            Ok(text) => Ok(text),
            Err(valid_up_to) => {
                proof {
                    crate::text::lemma_valid_up_to_bounds(bytes@);
                }
                Err(ParserError::InvalidUtf8 { pos: pos + valid_up_to })
            },
        }
    }
}

} // verus!
