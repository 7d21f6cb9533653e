//! Lists: `[` entries `]`, where entries are separated by runs of whitespace
//! and commas, and leading and trailing separators are allowed.

use vstd::prelude::*;

use super::error::ParserError;
use super::{is_entry_separator, skip_separators_from, skip_whitespace_from, Parser};

verus! {

/// What advancing to the next entry of a list or map that ends with `close`
/// gives, when the reader stands at `pos`: whether there is an entry (or the
/// error), and the position after the step.
///
/// `first` tells whether no entry has been read yet.
pub open spec fn next_entry_spec(
    src: Seq<u8>,
    pos: int,
    first: bool,
    close: u8,
    expected: &'static str,
) -> (Result<bool, ParserError>, int) {
    let next = skip_separators_from(src, pos);
    if next < src.len() && src[next] == close {
        (Ok(false), next + 1)
    } else if next >= src.len() {
        (Err(ParserError::Expected { pos: next as usize, expected }), next)
    } else if !first && next == pos {
        (Err(ParserError::MissingSeparator { pos: next as usize }), next)
    } else {
        (Ok(true), next)
    }
}

/// What consuming an opening byte `open`, after optional whitespace, gives.
pub open spec fn open_spec(src: Seq<u8>, pos: int, open: u8, expected: &'static str) -> (
    Result<(), ParserError>,
    int,
) {
    let next = skip_whitespace_from(src, pos);
    if next < src.len() && src[next] == open {
        (Ok(()), next + 1)
    } else {
        (Err(ParserError::Expected { pos: next as usize, expected }), next)
    }
}

impl<'src> Parser<'src> {
    /// Consumes the `[` that opens a list, after optional whitespace.
    pub fn expect_list_start(&mut self) -> (res: Result<(), ParserError>)
        ensures
            final(self).input() == old(self).input(),
            (res, final(self).position()) == open_spec(
                old(self).input(),
                old(self).position(),
                0x5b,
                "`[`",
            ),
    {
        self.skip_whitespace();
        proof {
            super::lemma_skip_whitespace_bounds(old(self).input(), old(self).position());
        }
        self.expect(0x5b, "`[`")
    }

    /// Consumes the `]` that closes a list if it comes next.
    pub fn eat_list_end(&mut self) -> (eaten: bool)
        ensures
            final(self).input() == old(self).input(),
            eaten == (old(self).next_byte() == Some(0x5du8)),
            final(self).position() == old(self).position() + if eaten {
                1int
            } else {
                0int
            },
    {
        self.eat(0x5d)
    }

    /// Advances to the next item of a list whose `[` has been consumed,
    /// skipping the separators in front of it.
    ///
    /// Pass `first` while no item has been visited yet. Returns `false` once
    /// the closing `]` has been consumed, which means the list is complete;
    /// `true` when the reader stands on the next item.
    ///
    /// ## Errors
    /// - The input ends before the closing `]`.
    /// - An item follows the previous one without a separator.
    pub fn parse_list_item(&mut self, first: bool) -> (res: Result<bool, ParserError>)
        ensures
            final(self).input() == old(self).input(),
            (res, final(self).position()) == next_entry_spec(
                old(self).input(),
                old(self).position(),
                first,
                0x5d,
                "`]`",
            ),
    {
        let skipped = self.skip_entry_separator();
        proof {
            super::lemma_skip_separators_bounds(old(self).input(), old(self).position());
        }
        if self.eat_list_end() {
            return Ok(false);
        }
        if self.peek().is_none() {
            return Err(ParserError::Expected { pos: self.pos(), expected: "`]`" });
        }
        if !first && !skipped {
            return Err(ParserError::MissingSeparator { pos: self.pos() });
        }
        Ok(true)
    }
}

/// An item that follows the previous one without a separator is an error:
/// when an item was already read and the byte at `pos` is neither a
/// separator nor the closing `]`, the step reports a missing separator at
/// `pos` and stays there, whatever that byte is and whatever came before it.
/// After a separator, a byte that is not `]` starts the next item.
pub proof fn lemma_list_items_need_separators(src: Seq<u8>, pos: int)
    requires
        0 <= pos < src.len(),
        pos <= usize::MAX,
        !is_entry_separator(src[pos]),
        src[pos] != 0x5d,
    ensures
        next_entry_spec(src, pos, false, 0x5d, "`]`") == (
            Err::<bool, ParserError>(ParserError::MissingSeparator { pos: pos as usize }),
            pos,
        ),
        next_entry_spec(src, pos, true, 0x5d, "`]`") == (Ok::<bool, ParserError>(true), pos),
{
}

/// After a run of separators the step stands on the first byte behind it:
/// the next item when it is not `]`, the end of the list when it is.
pub proof fn lemma_list_step_after_separators(src: Seq<u8>, pos: int, first: bool)
    requires
        0 <= pos < src.len(),
        is_entry_separator(src[pos]),
        skip_separators_from(src, pos) < src.len(),
    ensures
        ({
            let next = skip_separators_from(src, pos);
            &&& pos < next
            &&& !is_entry_separator(src[next])
            &&& next_entry_spec(src, pos, first, 0x5d, "`]`") == if src[next] == 0x5d {
                (Ok::<bool, ParserError>(false), next + 1)
            } else {
                (Ok::<bool, ParserError>(true), next)
            }
        }),
{
    super::lemma_skip_separators_bounds(src, pos + 1);
    lemma_stops_at_non_separator(src, pos + 1);
}

/// Skipping separators stops at the end or on a byte that is no separator.
proof fn lemma_stops_at_non_separator(src: Seq<u8>, pos: int)
    requires
        0 <= pos,
    ensures
        skip_separators_from(src, pos) < src.len() ==> !is_entry_separator(
            src[skip_separators_from(src, pos)],
        ),
    decreases src.len() - pos,
{
    if pos < src.len() && is_entry_separator(src[pos]) {
        lemma_stops_at_non_separator(src, pos + 1);
    }
}

} // verus!
