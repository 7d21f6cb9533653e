//! Unsigned integers: `digit (sep | digit)*` with `sep = '_'`.

use vstd::prelude::*;

use super::error::ParserError;
use super::{is_ascii_digit, Parser};

verus! {

/// Bytes that may continue a number once its first digit was read.
pub open spec fn continues_number(byte: u8) -> bool {
    is_ascii_digit(byte) || byte == 0x5f
}

/// The end of the run of digits and `_` that starts at `pos`.
pub open spec fn number_end(src: Seq<u8>, pos: int) -> int
    decreases src.len() - pos,
{
    if 0 <= pos < src.len() && continues_number(src[pos]) {
        number_end(src, pos + 1)
    } else {
        pos
    }
}

/// The value of the decimal digits in `src[start..end]`; `_` is skipped.
pub open spec fn digits_value(src: Seq<u8>, start: int, end: int) -> nat
    decreases end - start,
{
    if end <= start {
        0
    } else if is_ascii_digit(src[end - 1]) {
        digits_value(src, start, end - 1) * 10 + (src[end - 1] - 0x30) as nat
    } else {
        digits_value(src, start, end - 1)
    }
}

/// The position right after the digit at which the value of the number that
/// starts at `start` first exceeds `u64::MAX`, searching from `pos` up to
/// `end`.
pub open spec fn overflow_pos(src: Seq<u8>, start: int, pos: int, end: int) -> int
    decreases end - pos,
{
    if pos >= end {
        end
    } else if digits_value(src, start, pos + 1) > u64::MAX {
        pos + 1
    } else {
        overflow_pos(src, start, pos + 1, end)
    }
}

/// What reading a `u64` at `pos` gives: the result and the position after it.
pub open spec fn parse_u64_spec(src: Seq<u8>, pos: int) -> (Result<u64, ParserError>, int) {
    let end = number_end(src, pos);
    if !(0 <= pos < src.len() && is_ascii_digit(src[pos])) {
        (Err(ParserError::InvalidInt { pos: pos as usize }), pos)
    } else if digits_value(src, pos, end) <= u64::MAX {
        (Ok(digits_value(src, pos, end) as u64), end)
    } else {
        (Err(ParserError::Overflow { pos: pos as usize, ty: "u64" }), overflow_pos(src, pos, pos, end))
    }
}

/// What reading an unsigned integer of at most `max`, named `ty`, at `pos`
/// gives: the result and the position after it.
pub open spec fn parse_uint_spec(src: Seq<u8>, pos: int, max: u64, ty: &'static str) -> (
    Result<u64, ParserError>,
    int,
) {
    let (res, end) = parse_u64_spec(src, pos);
    match res {
        Ok(value) => if value <= max {
            (Ok(value), end)
        } else {
            (Err(ParserError::Overflow { pos: pos as usize, ty }), end)
        },
        Err(error) => (Err(error), end),
    }
}

spec fn pow10(n: nat) -> nat
    decreases n,
{
    if n == 0 {
        1
    } else {
        10 * pow10((n - 1) as nat)
    }
}

/// A number never ends before it starts, and not after the input.
pub proof fn lemma_number_end_bounds(src: Seq<u8>, pos: int)
    requires
        0 <= pos <= src.len(),
    ensures
        pos <= number_end(src, pos) <= src.len(),
        number_end(src, pos) < src.len() ==> !continues_number(src[number_end(src, pos)]),
        forall|i: int| pos <= i < number_end(src, pos) ==> continues_number(#[trigger] src[i]),
    decreases src.len() - pos,
{
    if pos < src.len() && continues_number(src[pos]) {
        lemma_number_end_bounds(src, pos + 1);
    }
}

/// Adding digits to a number never makes it smaller.
pub proof fn lemma_digits_value_monotonic(src: Seq<u8>, start: int, i: int, j: int)
    requires
        start <= i <= j,
    ensures
        digits_value(src, start, i) <= digits_value(src, start, j),
    decreases j - i,
{
    if i < j {
        lemma_digits_value_monotonic(src, start, i, j - 1);
    }
}

impl<'src> Parser<'src> {
    /// Parses a `u64`.
    ///
    /// Grammar:
    /// ```text
    /// u64     = digit (sep | digit)*
    /// sep     = '_'
    /// digit   = '0' | ... | '9'
    /// ```
    pub fn parse_u64(&mut self) -> (res: Result<u64, ParserError>)
        ensures
            final(self).input() == old(self).input(),
            (res, final(self).position()) == parse_u64_spec(old(self).input(), old(self).position()),
    {
        let src = self.src();
        let start = self.pos();
        let ghost end = number_end(src@, start as int);
        proof {
            lemma_number_end_bounds(src@, start as int);
        }

        // Must start with a digit
        if !(start < src.len() && 0x30 <= src[start] && src[start] <= 0x39) {
            return Err(ParserError::InvalidInt { pos: start });
        }

        let mut pos = start;
        let mut value: u64 = 0;

        //  18_446_744_073_709_551_615 - u64::MAX
        //   9_999_999_999_999_999_999 - the largest 19-digit number
        let mut taken: usize = 0;
        proof {
            reveal_with_fuel(pow10, 20);
            assert(pow10(19) == 10000000000000000000nat);
        }
        while taken < 19 && pos < src.len() && 0x30 <= src[pos] && src[pos] <= 0x39
            invariant
                self.input() == src@,
                old(self).input() == src@,
                old(self).position() == start,
                start < src@.len(),
                is_ascii_digit(src@[start as int]),
                start <= pos <= end,
                end == number_end(src@, start as int),
                end <= src@.len(),
                forall|i: int| start <= i < end ==> continues_number(#[trigger] src@[i]),
                end < src@.len() ==> !continues_number(src@[end]),
                pos - start == taken,
                taken <= 19,
                pow10(19) == 10000000000000000000nat,
                value == digits_value(src@, start as int, pos as int),
                value < pow10(taken as nat),
                overflow_pos(src@, start as int, start as int, end) == overflow_pos(
                    src@,
                    start as int,
                    pos as int,
                    end,
                ),
            decreases 19 - taken,
        {
            let byte = src[pos];
            proof {
                assert(pow10((taken + 1) as nat) == 10 * pow10(taken as nat));
                lemma_pow10_monotonic((taken + 1) as nat, 19);
                assert(value * 10 + (byte - 0x30) < pow10((taken + 1) as nat)) by (nonlinear_arith)
                    requires
                        value < pow10(taken as nat),
                        pow10((taken + 1) as nat) == 10 * pow10(taken as nat),
                        0 <= byte - 0x30 <= 9,
                ;
                if pos >= end {
                    assert(!continues_number(src@[end]));
                }
                assert(digits_value(src@, start as int, pos + 1) == digits_value(
                    src@,
                    start as int,
                    pos as int,
                ) * 10 + (byte - 0x30) as nat);
            }
            pos = pos + 1;
            value = value * 10 + (byte - 0x30) as u64;
            taken = taken + 1;
        }

        // Slow path: 20th digit and beyond, separators, ...
        while pos < src.len() && ((0x30 <= src[pos] && src[pos] <= 0x39) || src[pos] == 0x5f)
            invariant
                self.input() == src@,
                old(self).input() == src@,
                old(self).position() == start,
                start < src@.len(),
                is_ascii_digit(src@[start as int]),
                start < pos <= end,
                end == number_end(src@, start as int),
                end <= src@.len(),
                forall|i: int| start <= i < end ==> continues_number(#[trigger] src@[i]),
                end < src@.len() ==> !continues_number(src@[end]),
                value == digits_value(src@, start as int, pos as int),
                overflow_pos(src@, start as int, start as int, end) == overflow_pos(
                    src@,
                    start as int,
                    pos as int,
                    end,
                ),
            decreases src@.len() - pos,
        {
            let byte = src[pos];
            proof {
                if pos >= end {
                    assert(!continues_number(src@[end]));
                }
            }
            if 0x30 <= byte && byte <= 0x39 {
                let digit = (byte - 0x30) as u64;
                let next = match value.checked_mul(10) {
                    Some(tens) => tens.checked_add(digit),
                    None => None,
                };
                match next {
                    Some(next) => {
                        value = next;
                    },
                    None => {
                        proof {
                            lemma_overflow_here(src@, start as int, pos as int, end);
                            lemma_digits_value_monotonic(src@, start as int, pos + 1, end);
                        }
                        self.set_pos(pos + 1);
                        return Err(ParserError::Overflow { pos: start, ty: "u64" });
                    },
                }
            }
            pos = pos + 1;
        }
        proof {
            if pos < end {
                assert(continues_number(src@[pos as int]));
            }
        }
        self.set_pos(pos);
        Ok(value)
    }

    /// Parses an unsigned integer that must not exceed `max`; `ty` names its
    /// type in the error that a larger value reports.
    fn parse_uint(&mut self, max: u64, ty: &'static str) -> (res: Result<u64, ParserError>)
        ensures
            final(self).input() == old(self).input(),
            (res, final(self).position()) == parse_uint_spec(
                old(self).input(),
                old(self).position(),
                max,
                ty,
            ),
    {
        let start = self.pos();
        let value = self.parse_u64()?;
        if value <= max {
            Ok(value)
        } else {
            Err(ParserError::Overflow { pos: start, ty })
        }
    }

    /// Parses a `u8`.
    pub fn parse_u8(&mut self) -> (res: Result<u8, ParserError>)
        ensures
            final(self).input() == old(self).input(),
            ({
                let (expected, end) = parse_uint_spec(
                    old(self).input(),
                    old(self).position(),
                    0xff,
                    "u8",
                );
                &&& final(self).position() == end
                &&& match expected {
                    Ok(value) => res == Ok::<u8, ParserError>(value as u8),
                    Err(error) => res == Err::<u8, ParserError>(error),
                }
            }),
    {
        match self.parse_uint(0xff, "u8") {
            Ok(value) => Ok(value as u8),
            Err(error) => Err(error),
        }
    }

    /// Parses a `u16`.
    pub fn parse_u16(&mut self) -> (res: Result<u16, ParserError>)
        ensures
            final(self).input() == old(self).input(),
            ({
                let (expected, end) = parse_uint_spec(
                    old(self).input(),
                    old(self).position(),
                    0xffff,
                    "u16",
                );
                &&& final(self).position() == end
                &&& match expected {
                    Ok(value) => res == Ok::<u16, ParserError>(value as u16),
                    Err(error) => res == Err::<u16, ParserError>(error),
                }
            }),
    {
        match self.parse_uint(0xffff, "u16") {
            Ok(value) => Ok(value as u16),
            Err(error) => Err(error),
        }
    }

    /// Parses a `u32`.
    pub fn parse_u32(&mut self) -> (res: Result<u32, ParserError>)
        ensures
            final(self).input() == old(self).input(),
            ({
                let (expected, end) = parse_uint_spec(
                    old(self).input(),
                    old(self).position(),
                    0xffff_ffff,
                    "u32",
                );
                &&& final(self).position() == end
                &&& match expected {
                    Ok(value) => res == Ok::<u32, ParserError>(value as u32),
                    Err(error) => res == Err::<u32, ParserError>(error),
                }
            }),
    {
        match self.parse_uint(0xffff_ffff, "u32") {
            Ok(value) => Ok(value as u32),
            Err(error) => Err(error),
        }
    }
}

proof fn lemma_pow10_monotonic(i: nat, j: nat)
    requires
        i <= j,
    ensures
        pow10(i) <= pow10(j),
    decreases j - i,
{
    if i < j {
        lemma_pow10_monotonic(i, (j - 1) as nat);
    }
}

/// When the digit at `pos` makes the value exceed `u64::MAX` and no earlier
/// one did, the overflow is reported right after it.
proof fn lemma_overflow_here(src: Seq<u8>, start: int, pos: int, end: int)
    requires
        start <= pos < end,
        is_ascii_digit(src[pos]),
        digits_value(src, start, pos) * 10 + (src[pos] - 0x30) as nat > u64::MAX,
        overflow_pos(src, start, start, end) == overflow_pos(src, start, pos, end),
    ensures
        overflow_pos(src, start, start, end) == pos + 1,
        digits_value(src, start, pos + 1) > u64::MAX,
{
}


/// The decimal digits of `n`, most significant first, without leading zeros.
pub open spec fn decimal_digits(n: nat) -> Seq<u8>
    decreases n,
{
    if n < 10 {
        seq![(0x30 + n) as u8]
    } else {
        decimal_digits(n / 10).push((0x30 + n % 10) as u8)
    }
}

proof fn lemma_decimal_digits_are_digits(n: nat)
    ensures
        decimal_digits(n).len() > 0,
        forall|i: int|
            0 <= i < decimal_digits(n).len() ==> is_ascii_digit(#[trigger] decimal_digits(n)[i]),
    decreases n,
{
    if n >= 10 {
        lemma_decimal_digits_are_digits(n / 10);
    }
}

/// The value of the digits depends only on the bytes between `start` and `end`.
proof fn lemma_digits_value_prefix(a: Seq<u8>, b: Seq<u8>, end: int)
    requires
        0 <= end <= a.len(),
        end <= b.len(),
        a.subrange(0, end) == b.subrange(0, end),
    ensures
        digits_value(a, 0, end) == digits_value(b, 0, end),
    decreases end,
{
    if end > 0 {
        assert(a[end - 1] == a.subrange(0, end)[end - 1]);
        assert(b[end - 1] == b.subrange(0, end)[end - 1]);
        assert(a.subrange(0, end - 1) =~= a.subrange(0, end).subrange(0, end - 1));
        assert(b.subrange(0, end - 1) =~= b.subrange(0, end).subrange(0, end - 1));
        lemma_digits_value_prefix(a, b, end - 1);
    }
}

proof fn lemma_digits_value_of_decimal(n: nat, rest: Seq<u8>)
    ensures
        digits_value(decimal_digits(n) + rest, 0, decimal_digits(n).len() as int) == n,
    decreases n,
{
    let digits = decimal_digits(n);
    let src = digits + rest;
    if n < 10 {
        assert(src[0] == (0x30 + n) as u8);
        assert(digits_value(src, 0, 0) == 0);
    } else {
        let high = decimal_digits(n / 10);
        lemma_digits_value_of_decimal(n / 10, rest);
        assert(src.subrange(0, high.len() as int) =~= high);
        assert((high + rest).subrange(0, high.len() as int) =~= high);
        lemma_digits_value_prefix(src, high + rest, high.len() as int);
        assert(src[high.len() as int] == (0x30 + n % 10) as u8);
    }
}

proof fn lemma_number_end_across(src: Seq<u8>, pos: int, end: int)
    requires
        0 <= pos <= end <= src.len(),
        forall|i: int| pos <= i < end ==> continues_number(#[trigger] src[i]),
    ensures
        number_end(src, pos) == number_end(src, end),
    decreases end - pos,
{
    if pos < end {
        lemma_number_end_across(src, pos + 1, end);
    }
}

/// Reading the decimal digits of a number gives the number back, and the
/// reader stops right after them when no digit or `_` follows.
pub proof fn lemma_parse_u64_reads_back_decimal_digits(n: u64, rest: Seq<u8>)
    requires
        rest.len() == 0 || !continues_number(rest[0]),
    ensures
        parse_u64_spec(decimal_digits(n as nat) + rest, 0) == (
            Ok::<u64, ParserError>(n),
            decimal_digits(n as nat).len() as int,
        ),
{
    let digits = decimal_digits(n as nat);
    let src = digits + rest;
    lemma_decimal_digits_are_digits(n as nat);
    assert forall|i: int| 0 <= i < digits.len() implies continues_number(#[trigger] src[i]) by {
        assert(src[i] == digits[i]);
    }
    lemma_number_end_across(src, 0, digits.len() as int);
    if rest.len() > 0 {
        assert(src[digits.len() as int] == rest[0]);
    }
    assert(number_end(src, digits.len() as int) == digits.len());
    lemma_digits_value_of_decimal(n as nat, rest);
    assert(src[0] == digits[0]);
}

/// A narrower integer is read exactly as a `u64` is, and fails with an
/// overflow of its own type when the value does not fit.
pub proof fn lemma_parse_uint_narrows_parse_u64(
    src: Seq<u8>,
    pos: int,
    max: u64,
    ty: &'static str,
)
    ensures
        parse_uint_spec(src, pos, max, ty).1 == parse_u64_spec(src, pos).1,
        parse_u64_spec(src, pos).0 matches Ok(value) ==> (value <= max ==> parse_uint_spec(
            src,
            pos,
            max,
            ty,
        ).0 == Ok::<u64, ParserError>(value)) && (value > max ==> parse_uint_spec(
            src,
            pos,
            max,
            ty,
        ).0 == Err::<u64, ParserError>(ParserError::Overflow { pos: pos as usize, ty })),
        parse_u64_spec(src, pos).0 is Err ==> parse_uint_spec(src, pos, max, ty).0 == parse_u64_spec(
            src,
            pos,
        ).0,
{
}
} // verus!
