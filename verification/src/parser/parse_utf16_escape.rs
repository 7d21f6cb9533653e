//! `\uXXXX` escapes: one UTF-16 code unit, or a surrogate pair written as two.

use vstd::prelude::*;

use super::error::ParserError;
use super::{holds_at, Parser};
use crate::text::char_from_u32;

verus! {

/// `0`-`9`, `a`-`f` and `A`-`F`.
pub open spec fn is_hex_digit(byte: u8) -> bool {
    (0x30 <= byte <= 0x39) || (0x61 <= byte <= 0x66) || (0x41 <= byte <= 0x46)
}

/// The value of a hexadecimal digit.
pub open spec fn hex_value(byte: u8) -> int {
    if 0x30 <= byte <= 0x39 {
        byte - 0x30
    } else if 0x61 <= byte <= 0x66 {
        byte - 0x61 + 10
    } else {
        byte - 0x41 + 10
    }
}

/// What reading the four hexadecimal digits of a code unit at `pos` gives:
/// the code unit and the position after it.
pub open spec fn code_unit_spec(src: Seq<u8>, pos: int) -> Result<(u16, int), ParserError> {
    if pos + 4 > src.len() {
        Err(ParserError::InvalidUtf16 { pos: src.len() as usize, msg: "expected 4 hex digits" })
    } else if is_hex_digit(src[pos]) && is_hex_digit(src[pos + 1]) && is_hex_digit(src[pos + 2])
        && is_hex_digit(src[pos + 3]) {
        Ok(
            (
                (hex_value(src[pos]) * 0x1000 + hex_value(src[pos + 1]) * 0x100 + hex_value(
                    src[pos + 2],
                ) * 0x10 + hex_value(src[pos + 3])) as u16,
                pos + 4,
            ),
        )
    } else {
        Err(ParserError::InvalidUtf16 { pos: pos as usize, msg: "expected 4 hex digits" })
    }
}

/// Whether a code unit is a surrogate (`0xD800..=0xDFFF`).
pub open spec fn is_surrogate(unit: u16) -> bool {
    0xd800 <= unit <= 0xdfff
}

/// What decoding a `\u` escape gives, whose `u` stands at `start` and whose
/// digits begin at `pos`: the character and the position after the escape.
///
/// A code unit that is no surrogate is the character itself; a high
/// surrogate must be followed by a `\u` escape of a low surrogate, and the
/// pair encodes a character above `U+FFFF`.
pub open spec fn utf16_escape_spec(src: Seq<u8>, start: int, pos: int) -> Result<
    (char, int),
    ParserError,
> {
    match code_unit_spec(src, pos) {
        Err(error) => Err(error),
        Ok((unit, after)) => if !is_surrogate(unit) {
            Ok((unit as char, after))
        } else if unit <= 0xdbff && holds_at(src, after, seq![0x5cu8, 0x75]) {
            match code_unit_spec(src, after + 2) {
                Err(error) => Err(error),
                Ok((low, end)) => if 0xdc00 <= low <= 0xdfff {
                    Ok(
                        (
                            (0x10000 + (unit - 0xd800) * 0x400 + (low - 0xdc00)) as u32 as char,
                            end,
                        ),
                    )
                } else {
                    Err(
                        ParserError::InvalidUtf16 {
                            pos: start as usize,
                            msg: "a low surrogate must follow a high surrogate",
                        },
                    )
                },
            }
        } else {
            Err(
                ParserError::InvalidUtf16 {
                    pos: start as usize,
                    msg: "a low surrogate must follow a high surrogate",
                },
            )
        },
    }
}

/// Where the reader stands after decoding the `\u` escape whose digits begin
/// at `pos` failed: on the first code unit when its digits are malformed,
/// after it when no `\u` of a low surrogate follows, on the second code unit
/// when its digits are malformed, and after it when it is no low surrogate.
pub open spec fn utf16_escape_error_pos(src: Seq<u8>, pos: int) -> int {
    match code_unit_spec(src, pos) {
        Err(_) => pos,
        Ok((unit, after)) => if is_surrogate(unit) && unit <= 0xdbff && holds_at(
            src,
            after,
            seq![0x5cu8, 0x75],
        ) {
            match code_unit_spec(src, after + 2) {
                Err(_) => after + 2,
                Ok((_, end)) => end,
            }
        } else {
            after
        },
    }
}

/// The value of a hexadecimal digit, or `None` for any other byte.
fn hex_nibble(byte: u8) -> (nibble: Option<u16>)
    ensures
        nibble is Some <==> is_hex_digit(byte),
        nibble matches Some(value) ==> value == hex_value(byte) && value < 16,
{
    if 0x30 <= byte && byte <= 0x39 {
        Some((byte - 0x30) as u16)
    } else if 0x61 <= byte && byte <= 0x66 {
        Some((byte - 0x61 + 10) as u16)
    } else if 0x41 <= byte && byte <= 0x46 {
        Some((byte - 0x41 + 10) as u16)
    } else {
        None
    }
}

impl<'src> Parser<'src> {
    /// Decodes a UTF-16 escape to a `char`; the reader stands after its `u`,
    /// which is at `start`.
    ///
    /// # Grammar
    /// ```text
    /// utf16Escape     = \uXXXX | highSurrogate lowSurrogate
    /// highSurrogate   = \uXXXX
    /// lowSurrogate    = \uXXXX
    /// ```
    pub fn parse_escaped_utf16_char(&mut self, start: usize) -> (res: Result<char, ParserError>)
        ensures
            final(self).input() == old(self).input(),
            final(self).scratch_chars() == old(self).scratch_chars(),
            old(self).position() <= final(self).position() <= final(self).input().len(),
            match utf16_escape_spec(old(self).input(), start as int, old(self).position()) {
                Ok((c, after)) => res == Ok::<char, ParserError>(c) && final(self).position()
                    == after,
                Err(error) => res == Err::<char, ParserError>(error) && final(self).position()
                    == utf16_escape_error_pos(old(self).input(), old(self).position()),
            },
    {
        let unit = self.parse_utf16_code_unit()?;

        // Map surrogates to the bottom of the u16 range:
        // - char       : 0x0000..=0xD7FF -> 0x2800..=0xFFFF >= 2*0x400 = 0x0800
        // - high sur.  : 0xD800..=0xDBFF -> 0x0000..0x0400  < 0x0800
        // - low sur.   : 0xDC00..=0xDFFF -> 0x0400..0x0800  < 0x0800
        // - char       : 0xE000..=0xFFFF -> 0x0800..0x2800  >= 0x0800
        let high = unit.wrapping_sub(0xd800);

        // `unit` is a valid char on its own
        if high >= 0x800 {
            let c = char_from_u32(unit as u32);
            proof {
                vstd::utf8::char_u32_cast(c.unwrap(), unit as u32);
            }
            return Ok(c.unwrap());
        }
        // `unit` must be a high surrogate followed by the `\u` of the low surrogate

        let backslash_u: [u8; 2] = [0x5c, 0x75];
        assert(backslash_u@ =~= seq![0x5cu8, 0x75]);
        if !(high < 0x400 && self.eat_bytes(&backslash_u)) {
            return Err(
                ParserError::InvalidUtf16 {
                    pos: start,
                    msg: "a low surrogate must follow a high surrogate",
                },
            );
        }
        let low = self.parse_utf16_code_unit()?.wrapping_sub(0xdc00);
        if low >= 0x400 {
            return Err(
                ParserError::InvalidUtf16 {
                    pos: start,
                    msg: "a low surrogate must follow a high surrogate",
                },
            );
        }
        let value: u32 = 0x1_0000 + (high as u32) * 0x400 + (low as u32);
        let c = char_from_u32(value);
        proof {
            vstd::utf8::char_u32_cast(c.unwrap(), value);
        }
        Ok(c.unwrap())
    }

    /// Parses the 4 hexadecimal digits of a `\uXXXX` escape, which the reader
    /// stands on, to a code unit.
    pub fn parse_utf16_code_unit(&mut self) -> (res: Result<u16, ParserError>)
        ensures
            final(self).input() == old(self).input(),
            final(self).scratch_chars() == old(self).scratch_chars(),
            old(self).position() <= final(self).position() <= final(self).input().len(),
            match code_unit_spec(old(self).input(), old(self).position()) {
                Ok((unit, after)) => res == Ok::<u16, ParserError>(unit) && final(self).position()
                    == after,
                Err(error) => res == Err::<u16, ParserError>(error) && final(self).position()
                    == old(self).position(),
            },
    {
        let src = self.src();
        let start = self.pos();
        if src.len() - start < 4 {
            return Err(ParserError::InvalidUtf16 { pos: src.len(), msg: "expected 4 hex digits" });
        }
        let digits = (
            hex_nibble(src[start]),
            hex_nibble(src[start + 1]),
            hex_nibble(src[start + 2]),
            hex_nibble(src[start + 3]),
        );
        match digits {
            (Some(n0), Some(n1), Some(n2), Some(n3)) => {
                // Pack the 4 nibbles into 2 bytes.
                let unit: u16 = n0 * 0x1000 + n1 * 0x100 + n2 * 0x10 + n3;
                self.set_pos(start + 4);
                Ok(unit)
            },
            _ => Err(ParserError::InvalidUtf16 { pos: start, msg: "expected 4 hex digits" }),
        }
    }
}

} // verus!
