//! Maps: `{` entries `}`, each entry a quoted key, `:` and a value, entries
//! separated as in lists.

use vstd::prelude::*;

use super::error::ParserError;
use super::parse_list::{next_entry_spec, open_spec};
use super::{holds_at, skip_whitespace_from, Parser};
use crate::text::{string_from_utf8_lossy, utf8_lossy};
use vstd::slice::slice_subrange;
use vstd::string::StringSliceAdditionalSpecFns;

verus! {

/// Whether the key `key` is written at `pos`: its bytes, then the closing `"`.
pub open spec fn key_at(src: Seq<u8>, pos: int, key: Seq<u8>) -> bool {
    &&& holds_at(src, pos, key)
    &&& pos + key.len() < src.len()
    &&& src[pos + key.len()] == 0x22
}

/// The index of the first of `keys` that is written at `pos`, searching from
/// index `from`.
pub open spec fn first_key_at(src: Seq<u8>, pos: int, keys: Seq<Seq<u8>>, from: int) -> Option<
    int,
>
    decreases keys.len() - from,
{
    if from < 0 || from >= keys.len() {
        None
    } else if key_at(src, pos, keys[from]) {
        Some(from)
    } else {
        first_key_at(src, pos, keys, from + 1)
    }
}

/// The position of the first `"` at or after `pos`.
pub open spec fn quote_from(src: Seq<u8>, pos: int) -> Option<int>
    decreases src.len() - pos,
{
    if pos < 0 || pos >= src.len() {
        None
    } else if src[pos] == 0x22 {
        Some(pos)
    } else {
        quote_from(src, pos + 1)
    }
}

/// The UTF-8 bytes of each of `identifiers`.
pub open spec fn key_bytes(identifiers: Seq<&'static str>) -> Seq<Seq<u8>> {
    identifiers.map_values(|identifier: &'static str| identifier.spec_bytes())
}

/// What reading a quoted key, to be matched against `keys`, at `pos` gives,
/// apart from the text of an unknown key: the index of the key that matched
/// (or the error), and the position after it.
pub open spec fn known_key_spec(src: Seq<u8>, pos: int, keys: Seq<Seq<u8>>) -> (
    Result<int, ParserError>,
    int,
) {
    if !(0 <= pos < src.len() && src[pos] == 0x22) {
        (Err(ParserError::Expected { pos: pos as usize, expected: "`\"`" }), pos)
    } else {
        match first_key_at(src, pos + 1, keys, 0) {
            Some(index) => (Ok(index), pos + 1 + keys[index].len() + 1),
            None => match quote_from(src, pos + 1) {
                None => (Err(ParserError::UnterminatedString { pos: src.len() as usize }), pos + 1),
                // The `found` text is filled in by `parse_known_key`.
                Some(end) => (
                    Err(
                        ParserError::InvalidIdentifier {
                            pos: (pos + 1) as usize,
                            found: arbitrary(),
                        },
                    ),
                    pos + 1,
                ),
            },
        }
    }
}

proof fn lemma_first_key_at(src: Seq<u8>, pos: int, keys: Seq<Seq<u8>>, from: int)
    requires
        0 <= from <= keys.len(),
    ensures
        first_key_at(src, pos, keys, from) matches Some(index) ==> from <= index < keys.len()
            && key_at(src, pos, keys[index]),
        first_key_at(src, pos, keys, from) is None ==> forall|i: int|
            from <= i < keys.len() ==> !key_at(src, pos, #[trigger] keys[i]),
    decreases keys.len() - from,
{
    if from < keys.len() {
        lemma_first_key_at(src, pos, keys, from + 1);
    }
}

proof fn lemma_quote_from(src: Seq<u8>, pos: int)
    requires
        0 <= pos <= src.len(),
    ensures
        quote_from(src, pos) matches Some(end) ==> pos <= end < src.len() && src[end] == 0x22
            && forall|i: int| pos <= i < end ==> src[i] != 0x22,
        quote_from(src, pos) is None ==> forall|i: int| pos <= i < src.len() ==> src[i] != 0x22,
    decreases src.len() - pos,
{
    if pos < src.len() {
        lemma_quote_from(src, pos + 1);
    }
}

impl<'src> Parser<'src> {
    /// Consumes the `{` that opens a map, after optional whitespace.
    pub fn expect_map_start(&mut self) -> (res: Result<(), ParserError>)
        ensures
            final(self).input() == old(self).input(),
            (res, final(self).position()) == open_spec(
                old(self).input(),
                old(self).position(),
                0x7b,
                "`{`",
            ),
    {
        self.skip_whitespace();
        proof {
            super::lemma_skip_whitespace_bounds(old(self).input(), old(self).position());
        }
        self.expect(0x7b, "`{`")
    }

    /// Consumes the `}` that closes a map if it comes next.
    pub fn eat_map_end(&mut self) -> (eaten: bool)
        ensures
            final(self).input() == old(self).input(),
            eaten == (old(self).next_byte() == Some(0x7du8)),
            final(self).position() == old(self).position() + if eaten {
                1int
            } else {
                0int
            },
    {
        self.eat(0x7d)
    }

    /// Advances to the next entry of a map whose `{` has been consumed,
    /// skipping the separators in front of it.
    ///
    /// Pass `first` while no entry has been visited yet. Returns `false` once
    /// the closing `}` has been consumed; `true` when the reader stands on the
    /// key of the next entry.
    ///
    /// ## Errors
    /// - The input ends before the closing `}`.
    /// - An entry follows the previous one without a separator.
    pub fn parse_map_entry(&mut self, first: bool) -> (res: Result<bool, ParserError>)
        ensures
            final(self).input() == old(self).input(),
            (res, final(self).position()) == next_entry_spec(
                old(self).input(),
                old(self).position(),
                first,
                0x7d,
                "`}`",
            ),
    {
        let skipped = self.skip_entry_separator();
        proof {
            super::lemma_skip_separators_bounds(old(self).input(), old(self).position());
        }
        if self.eat_map_end() {
            return Ok(false);
        }
        if self.peek().is_none() {
            return Err(ParserError::Expected { pos: self.pos(), expected: "`}`" });
        }
        if !first && !skipped {
            return Err(ParserError::MissingSeparator { pos: self.pos() });
        }
        Ok(true)
    }

    /// Consumes the `:` between the key and the value of an entry, with the
    /// whitespace around it.
    pub fn expect_kv_separator(&mut self) -> (res: Result<(), ParserError>)
        ensures
            final(self).input() == old(self).input(),
            ({
                let (expected, after) = open_spec(
                    old(self).input(),
                    old(self).position(),
                    0x3a,
                    "`:`",
                );
                &&& res == expected
                &&& final(self).position() == if expected is Ok {
                    skip_whitespace_from(old(self).input(), after)
                } else {
                    after
                }
            }),
    {
        self.skip_whitespace();
        proof {
            super::lemma_skip_whitespace_bounds(old(self).input(), old(self).position());
        }
        self.expect(0x3a, "`:`")?;
        self.skip_whitespace();
        Ok(())
    }

    /// Parses a quoted key and matches it against `identifiers`.
    ///
    /// Returns the first identifier that the key equals; a key only matches
    /// when its closing `"` follows right after the identifier, so keys that
    /// share a prefix are told apart.
    ///
    /// ## Errors
    /// - The reader does not stand on a `"`.
    /// - The key is none of `identifiers` (the error holds its text).
    /// - The key has no closing `"`.
    pub fn parse_known_key(&mut self, identifiers: &[&'static str]) -> (res: Result<
        &'static str,
        ParserError,
    >)
        ensures
            final(self).input() == old(self).input(),
            ({
                let src = old(self).input();
                let pos = old(self).position();
                let (expected, after) = known_key_spec(src, pos, key_bytes(identifiers@));
                &&& final(self).position() == after
                &&& match expected {
                    Ok(index) => res == Ok::<&'static str, ParserError>(identifiers@[index]),
                    Err(ParserError::InvalidIdentifier { pos: key_start, .. }) => {
                        let end = quote_from(src, pos + 1)->0;
                        res matches Err(ParserError::InvalidIdentifier { pos: p, found }) && p
                            == key_start && found@ == utf8_lossy(src.subrange(pos + 1, end))
                    },
                    Err(error) => res == Err::<&'static str, ParserError>(error),
                }
            }),
    {
        let ghost keys = key_bytes(identifiers@);
        self.expect(0x22, "`\"`")?;

        let src = self.src();
        let src_len = src.len();
        let key_start = self.pos();
        proof {
            lemma_first_key_at(src@, key_start as int, keys, 0);
        }

        // For one of the keys to match, the rest must start with `key"`.
        let mut index: usize = 0;
        while index < identifiers.len()
            invariant
                self.input() == src@,
                self.position() == key_start,
                key_start <= src@.len(),
                old(self).input() == src@,
                old(self).position() + 1 == key_start,
                src@[key_start - 1] == 0x22,
                keys == key_bytes(identifiers@),
                keys.len() == identifiers@.len(),
                src_len == src@.len(),
                index <= identifiers@.len(),
                first_key_at(src@, key_start as int, keys, 0) == first_key_at(
                    src@,
                    key_start as int,
                    keys,
                    index as int,
                ),
            decreases identifiers@.len() - index,
        {
            let identifier = identifiers[index];
            let bytes = identifier.as_bytes();
            assert(keys[index as int] == bytes@);
            if self.rest_starts_with(bytes) && key_start + bytes.len() < src_len && src[key_start
                + bytes.len()] == 0x22 {
                assert(key_at(src@, key_start as int, keys[index as int]));
                assert(first_key_at(src@, key_start as int, keys, index as int) == Some(index as int));
                assert(src@[key_start - 1] == 0x22);
                assert(known_key_spec(src@, key_start - 1, keys).0 == Ok::<int, ParserError>(index as int));
                assert(known_key_spec(src@, key_start - 1, keys).1 == key_start + bytes.len() + 1);
                self.set_pos(key_start + bytes.len() + 1);
                return Ok(identifier);
            }
            index = index + 1;
        }

        // No match found -> Extract the offending identifier
        let mut end = key_start;
        proof {
            lemma_quote_from(src@, key_start as int);
        }
        while end < src.len() && src[end] != 0x22
            invariant
                key_start <= end <= src@.len(),
                quote_from(src@, key_start as int) == quote_from(src@, end as int),
            decreases src@.len() - end,
        {
            end = end + 1;
        }
        if end == src.len() {
            return Err(ParserError::UnterminatedString { pos: src.len() });
        }
        let found = string_from_utf8_lossy(slice_subrange(src, key_start, end));
        Err(ParserError::InvalidIdentifier { pos: key_start, found })
    }
}


/// `key` holds no `"`.
pub open spec fn quote_free(key: Seq<u8>) -> bool {
    forall|i: int| 0 <= i < key.len() ==> key[i] != 0x22
}

/// A quote-free key `other` that differs from `key` is not written at `pos`
/// when `key` is, followed by its closing `"`.
proof fn lemma_other_key_not_at(src: Seq<u8>, pos: int, key: Seq<u8>, other: Seq<u8>)
    requires
        key_at(src, pos, key),
        quote_free(key),
        quote_free(other),
        key != other,
    ensures
        !key_at(src, pos, other),
{
    if key_at(src, pos, other) {
        if other.len() < key.len() {
            assert(src[pos + other.len()] == key[other.len() as int]) by {
                assert(src.subrange(pos, pos + key.len())[other.len() as int] == key[other.len() as int]);
            }
        } else if other.len() > key.len() {
            assert(src[pos + key.len()] == other[key.len() as int]) by {
                assert(src.subrange(pos, pos + other.len())[key.len() as int] == other[key.len() as int]);
            }
        } else {
            assert(key =~= other);
        }
    }
}

proof fn lemma_first_key_finds(src: Seq<u8>, pos: int, keys: Seq<Seq<u8>>, from: int, j: int)
    requires
        0 <= from <= j < keys.len(),
        key_at(src, pos, keys[j]),
        forall|i: int| 0 <= i < keys.len() ==> quote_free(#[trigger] keys[i]),
        forall|i: int, k: int| 0 <= i < keys.len() && 0 <= k < keys.len() && i != k ==> keys[i] != keys[k],
    ensures
        first_key_at(src, pos, keys, from) == Some(j),
    decreases j - from,
{
    if from < j {
        lemma_other_key_not_at(src, pos, keys[j], keys[from]);
        lemma_first_key_finds(src, pos, keys, from + 1, j);
    }
}

/// A key is recognized among keys that share prefixes with it: reading the
/// quoted key `keys[j]` gives `j` and stops after its closing `"`, whatever
/// the other keys are, as long as all keys differ and hold no `"`.
pub proof fn lemma_known_key_is_recognized(keys: Seq<Seq<u8>>, j: int, rest: Seq<u8>)
    requires
        0 <= j < keys.len(),
        forall|i: int| 0 <= i < keys.len() ==> quote_free(#[trigger] keys[i]),
        forall|i: int, k: int| 0 <= i < keys.len() && 0 <= k < keys.len() && i != k ==> keys[i] != keys[k],
    ensures
        known_key_spec(seq![0x22u8] + keys[j] + seq![0x22u8] + rest, 0, keys) == (
            Ok::<int, ParserError>(j),
            keys[j].len() + 2int,
        ),
{
    let src = seq![0x22u8] + keys[j] + seq![0x22u8] + rest;
    assert(src.subrange(1, 1 + keys[j].len() as int) =~= keys[j]);
    assert(src[1 + keys[j].len() as int] == 0x22);
    assert(key_at(src, 1, keys[j]));
    lemma_first_key_finds(src, 1, keys, 0, j);
}
/// An entry that follows the previous one without a separator is an error:
/// when an entry was already read and the byte at `pos` is neither a
/// separator nor the closing `}`, the step reports a missing separator at
/// `pos` and stays there, whatever that byte is and whatever came before it.
pub proof fn lemma_map_entries_need_separators(src: Seq<u8>, pos: int)
    requires
        0 <= pos < src.len(),
        pos <= usize::MAX,
        !super::is_entry_separator(src[pos]),
        src[pos] != 0x7d,
    ensures
        next_entry_spec(src, pos, false, 0x7d, "`}`") == (
            Err::<bool, ParserError>(ParserError::MissingSeparator { pos: pos as usize }),
            pos,
        ),
        next_entry_spec(src, pos, true, 0x7d, "`}`") == (Ok::<bool, ParserError>(true), pos),
{
}

} // verus!
