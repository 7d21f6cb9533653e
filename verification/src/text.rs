//! Calls into `std` for text: UTF-8 decoding, `char` construction and growing
//! a `String`. Verus takes each contract here on trust; every one states what
//! the `std` documentation promises of the function it calls.

use vstd::prelude::*;
use vstd::utf8::{decode_utf8, is_scalar, valid_utf8};

verus! {

/// The length of the longest prefix of `bytes[..n]` that is valid UTF-8.
pub open spec fn longest_valid_prefix(bytes: Seq<u8>, n: int) -> int
    decreases n,
{
    if n <= 0 {
        0
    } else if valid_utf8(bytes.take(n)) {
        n
    } else {
        longest_valid_prefix(bytes, n - 1)
    }
}

/// The index up to which `bytes` are valid UTF-8: the largest `n` such that
/// `bytes[..n]` is valid UTF-8.
pub open spec fn utf8_valid_up_to(bytes: Seq<u8>) -> int {
    longest_valid_prefix(bytes, bytes.len() as int)
}

/// The valid prefix never exceeds the bytes.
pub proof fn lemma_valid_up_to_bounds(bytes: Seq<u8>)
    ensures
        0 <= utf8_valid_up_to(bytes) <= bytes.len(),
{
    lemma_longest_valid_prefix_bounds(bytes, bytes.len() as int);
}

proof fn lemma_longest_valid_prefix_bounds(bytes: Seq<u8>, n: int)
    ensures
        0 <= longest_valid_prefix(bytes, n) <= if n < 0 {
            0
        } else {
            n
        },
    decreases n,
{
    if n > 0 {
        lemma_longest_valid_prefix_bounds(bytes, n - 1);
    }
}

/// The characters that `String::from_utf8_lossy` makes of `bytes`, each
/// invalid sequence replaced by `U+FFFD`.
pub uninterp spec fn utf8_lossy(bytes: Seq<u8>) -> Seq<char>;

/// `std::str::from_utf8`, with the error reduced to its `valid_up_to()`.
///
/// Claimed: it succeeds exactly on valid UTF-8 and then borrows `bytes` as
/// the characters they encode; on failure, `valid_up_to` is the largest index
/// up to which the bytes are valid UTF-8 (as its documentation states).
#[verifier::external_body]
pub(crate) fn str_from_utf8<'a>(bytes: &'a [u8]) -> (res: Result<&'a str, usize>)
    ensures
        res is Ok <==> valid_utf8(bytes@),
        res matches Ok(text) ==> text@ == decode_utf8(bytes@),
        res matches Err(valid_up_to) ==> valid_up_to == utf8_valid_up_to(bytes@),
{
    match std::str::from_utf8(bytes) {
        Ok(text) => Ok(text),
        Err(error) => Err(error.valid_up_to()),
    }
}

/// `String::from_utf8_lossy`, made owned.
///
/// Claimed: the result is `utf8_lossy(bytes)`, which for valid UTF-8 is the
/// decoded text unchanged. What it is for invalid input (which replacement
/// characters stand where) is left unsaid.
#[verifier::external_body]
pub(crate) fn string_from_utf8_lossy(bytes: &[u8]) -> (res: String)
    ensures
        res@ == utf8_lossy(bytes@),
        valid_utf8(bytes@) ==> res@ == decode_utf8(bytes@),
{
    String::from_utf8_lossy(bytes).into_owned()
}

/// `char::from_u32`.
///
/// Claimed: it gives the `char` with the value `value` exactly when `value` is
/// a Unicode scalar value, and `None` otherwise.
#[verifier::external_body]
pub(crate) fn char_from_u32(value: u32) -> (res: Option<char>)
    ensures
        res is Some <==> is_scalar(value),
        res matches Some(c) ==> c as u32 == value,
{
    char::from_u32(value)
}

/// `String::push`.
///
/// Claimed: it appends `c` to the characters of `text`.
#[verifier::external_body]
pub(crate) fn push_char(text: &mut String, c: char)
    ensures
        final(text)@ == old(text)@.push(c),
{
    text.push(c);
}

/// `String::push_str`.
///
/// Claimed: it appends the characters of `tail` to those of `text`.
#[verifier::external_body]
pub(crate) fn push_str(text: &mut String, tail: &str)
    ensures
        final(text)@ == old(text)@ + tail@,
{
    text.push_str(tail);
}

/// `String::clear`.
///
/// Claimed: it leaves `text` empty.
#[verifier::external_body]
pub(crate) fn clear(text: &mut String)
    ensures
        final(text)@ == Seq::<char>::empty(),
{
    text.clear();
}

} // verus!
