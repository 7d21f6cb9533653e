//! The byte-level reader that all parts of a document are read with.

use vstd::prelude::*;

pub mod ast;
pub mod error;
pub mod escape;
pub mod parse_list;
pub mod parse_map;
pub mod parse_str;
pub mod parse_uint;
pub mod parse_utf16_escape;

use self::error::ParserError;

verus! {

/// `u8::is_ascii_whitespace`: space, tab, line feed, form feed, carriage return.
pub open spec fn is_ascii_whitespace(byte: u8) -> bool {
    byte == 0x20 || byte == 0x09 || byte == 0x0a || byte == 0x0c || byte == 0x0d
}

/// `u8::is_ascii_digit`: `0` to `9`.
pub open spec fn is_ascii_digit(byte: u8) -> bool {
    0x30 <= byte <= 0x39
}

/// `u8::is_ascii_alphanumeric`: `0`-`9`, `A`-`Z`, `a`-`z`.
pub open spec fn is_ascii_alphanumeric(byte: u8) -> bool {
    is_ascii_digit(byte) || (0x41 <= byte <= 0x5a) || (0x61 <= byte <= 0x7a)
}

/// Bytes that may continue an identifier, so that a keyword followed by one
/// of them is not a keyword.
pub open spec fn continues_identifier(byte: u8) -> bool {
    is_ascii_alphanumeric(byte) || byte == 0x5f
}

/// Bytes that separate the entries of a list or a map: whitespace and `,`.
pub open spec fn is_entry_separator(byte: u8) -> bool {
    is_ascii_whitespace(byte) || byte == 0x2c
}

/// The first position at or after `pos` that holds no whitespace.
pub open spec fn skip_whitespace_from(src: Seq<u8>, pos: int) -> int
    decreases src.len() - pos,
{
    if 0 <= pos < src.len() && is_ascii_whitespace(src[pos]) {
        skip_whitespace_from(src, pos + 1)
    } else {
        pos
    }
}

/// The first position at or after `pos` that holds no entry separator.
pub open spec fn skip_separators_from(src: Seq<u8>, pos: int) -> int
    decreases src.len() - pos,
{
    if 0 <= pos < src.len() && is_entry_separator(src[pos]) {
        skip_separators_from(src, pos + 1)
    } else {
        pos
    }
}

/// Whether `src` holds the bytes `bytes` starting at `pos`.
pub open spec fn holds_at(src: Seq<u8>, pos: int, bytes: Seq<u8>) -> bool {
    &&& 0 <= pos
    &&& pos + bytes.len() <= src.len()
    &&& src.subrange(pos, pos + bytes.len()) == bytes
}

/// Whether the keyword `keyword` stands at `pos` as a token of its own: its
/// bytes are there and no identifier byte follows them.
pub open spec fn keyword_at(src: Seq<u8>, pos: int, keyword: Seq<u8>) -> bool {
    &&& holds_at(src, pos, keyword)
    &&& !(pos + keyword.len() < src.len() && continues_identifier(src[pos + keyword.len()]))
}

/// What checking that the document ends at `pos` gives: the result and the
/// position after the whitespace that follows.
pub open spec fn end_spec(src: Seq<u8>, pos: int) -> (Result<(), ParserError>, int) {
    let next = skip_whitespace_from(src, pos);
    if next < src.len() {
        (Err(ParserError::Expected { pos: next as usize, expected: "end of input" }), next)
    } else {
        (Ok(()), next)
    }
}

/// Skipping whitespace never moves backwards and stops inside the input.
pub proof fn lemma_skip_whitespace_bounds(src: Seq<u8>, pos: int)
    requires
        0 <= pos <= src.len(),
    ensures
        pos <= skip_whitespace_from(src, pos) <= src.len(),
        skip_whitespace_from(src, pos) < src.len() ==> !is_ascii_whitespace(
            src[skip_whitespace_from(src, pos)],
        ),
    decreases src.len() - pos,
{
    if pos < src.len() && is_ascii_whitespace(src[pos]) {
        lemma_skip_whitespace_bounds(src, pos + 1);
    }
}

/// Skipping separators never moves backwards and stops inside the input.
pub proof fn lemma_skip_separators_bounds(src: Seq<u8>, pos: int)
    requires
        0 <= pos <= src.len(),
    ensures
        pos <= skip_separators_from(src, pos) <= src.len(),
        skip_separators_from(src, pos) < src.len() ==> !is_entry_separator(
            src[skip_separators_from(src, pos)],
        ),
    decreases src.len() - pos,
{
    if pos < src.len() && is_entry_separator(src[pos]) {
        lemma_skip_separators_bounds(src, pos + 1);
    }
}

/// A cursor over the bytes of a document.
///
/// The position never passes the end of the input.
pub struct Parser<'src> {
    src: &'src [u8],
    pos: usize,
    /// Buffer that the characters of an escaped string are collected in.
    scratch: String,
}

impl<'src> Parser<'src> {
    #[verifier::type_invariant]
    spec fn position_in_input(&self) -> bool {
        self.pos <= self.src@.len()
    }

    /// The bytes being read.
    pub closed spec fn input(&self) -> Seq<u8> {
        self.src@
    }

    /// The offset of the next byte to read.
    pub closed spec fn position(&self) -> int {
        self.pos as int
    }

    /// The byte at the current position, if the input has not ended.
    pub open spec fn next_byte(&self) -> Option<u8> {
        if 0 <= self.position() < self.input().len() {
            Some(self.input()[self.position()])
        } else {
            None
        }
    }

    /// Creates a reader positioned at the start of `src`.
    pub fn new(src: &'src [u8]) -> (parser: Self)
        ensures
            parser.input() == src@,
            parser.position() == 0,
            parser.scratch_chars() == Seq::<char>::empty(),
    {
        Parser { src, pos: 0, scratch: String::new() }
    }

    /// The offset of the next byte to read.
    pub fn pos(&self) -> (pos: usize)
        ensures
            pos == self.position(),
            pos <= self.input().len(),
    {
        proof {
            use_type_invariant(self);
        }
        self.pos
    }

    /// The bytes being read.
    pub fn src(&self) -> (src: &'src [u8])
        ensures
            src@ == self.input(),
            self.position() <= src@.len(),
    {
        proof {
            use_type_invariant(self);
        }
        self.src
    }

    /// The characters collected in the scratch buffer.
    pub closed spec fn scratch_chars(&self) -> Seq<char> {
        self.scratch@
    }

    /// Empties the scratch buffer.
    pub(crate) fn scratch_clear(&mut self)
        ensures
            final(self).input() == old(self).input(),
            final(self).position() == old(self).position(),
            final(self).scratch_chars() == Seq::<char>::empty(),
    {
        proof {
            use_type_invariant(&*self);
        }
        let mut scratch = String::new();
        std::mem::swap(&mut scratch, &mut self.scratch);
        crate::text::clear(&mut scratch);
        self.scratch = scratch;
    }

    /// Appends `text` to the scratch buffer.
    pub(crate) fn scratch_push_str(&mut self, text: &str)
        ensures
            final(self).input() == old(self).input(),
            final(self).position() == old(self).position(),
            final(self).scratch_chars() == old(self).scratch_chars() + text@,
    {
        proof {
            use_type_invariant(&*self);
        }
        let mut scratch = String::new();
        std::mem::swap(&mut scratch, &mut self.scratch);
        crate::text::push_str(&mut scratch, text);
        self.scratch = scratch;
    }

    /// Appends `c` to the scratch buffer.
    pub(crate) fn scratch_push(&mut self, c: char)
        ensures
            final(self).input() == old(self).input(),
            final(self).position() == old(self).position(),
            final(self).scratch_chars() == old(self).scratch_chars().push(c),
    {
        proof {
            use_type_invariant(&*self);
        }
        let mut scratch = String::new();
        std::mem::swap(&mut scratch, &mut self.scratch);
        crate::text::push_char(&mut scratch, c);
        self.scratch = scratch;
    }

    /// A copy of the scratch buffer.
    pub(crate) fn scratch_text(&self) -> (text: String)
        ensures
            text@ == self.scratch_chars(),
    {
        self.scratch.clone()
    }

    /// Moves to `pos`, which must lie within the input.
    pub(crate) fn set_pos(&mut self, pos: usize)
        requires
            pos <= old(self).input().len(),
        ensures
            final(self).input() == old(self).input(),
            final(self).position() == pos,
            final(self).scratch_chars() == old(self).scratch_chars(),
    {
        self.pos = pos;
    }

    /// Returns the next byte without consuming it.
    pub fn peek(&self) -> (byte: Option<u8>)
        ensures
            byte == self.next_byte(),
    {
        proof {
            use_type_invariant(self);
        }
        if self.pos < self.src.len() {
            Some(self.src[self.pos])
        } else {
            None
        }
    }

    /// Consumes and returns the next byte, if there is one.
    pub fn next(&mut self) -> (byte: Option<u8>)
        ensures
            final(self).scratch_chars() == old(self).scratch_chars(),
            final(self).input() == old(self).input(),
            byte == old(self).next_byte(),
            final(self).position() == old(self).position() + if byte is Some {
                1int
            } else {
                0int
            },
    {
        proof {
            use_type_invariant(&*self);
        }
        if self.pos < self.src.len() {
            let byte = self.src[self.pos];
            self.pos = self.pos + 1;
            Some(byte)
        } else {
            None
        }
    }

    /// Consumes the next byte if it matches `expected`.
    ///
    /// Returns whether the byte was consumed.
    pub fn eat(&mut self, expected: u8) -> (eaten: bool)
        ensures
            final(self).scratch_chars() == old(self).scratch_chars(),
            final(self).input() == old(self).input(),
            eaten == (old(self).next_byte() == Some(expected)),
            final(self).position() == old(self).position() + if eaten {
                1int
            } else {
                0int
            },
    {
        proof {
            use_type_invariant(&*self);
        }
        if self.pos < self.src.len() && self.src[self.pos] == expected {
            self.pos = self.pos + 1;
            true
        } else {
            false
        }
    }

    /// Whether the input holds `expected` at the current position.
    pub(crate) fn rest_starts_with(&self, expected: &[u8]) -> (found: bool)
        ensures
            found == holds_at(self.input(), self.position(), expected@),
            self.input().len() <= usize::MAX,
    {
        proof {
            use_type_invariant(self);
        }
        if expected.len() > self.src.len() - self.pos {
            return false;
        }
        let mut i: usize = 0;
        while i < expected.len()
            invariant
                self.pos + expected@.len() <= self.src.len(),
                i <= expected@.len(),
                forall|j: int| 0 <= j < i ==> self.src@[self.pos + j] == expected@[j],
            decreases expected@.len() - i,
        {
            if self.src[self.pos + i] != expected[i] {
                assert(self.src@.subrange(self.pos as int, self.pos + expected@.len())[i as int]
                    != expected@[i as int]);
                return false;
            }
            i = i + 1;
        }
        assert(self.src@.subrange(self.pos as int, self.pos + expected@.len()) =~= expected@);
        true
    }

    /// Consumes the next `expected.len()` bytes if they match `expected`.
    ///
    /// Returns whether the bytes were consumed.
    pub fn eat_bytes(&mut self, expected: &[u8]) -> (eaten: bool)
        ensures
            final(self).scratch_chars() == old(self).scratch_chars(),
            final(self).input() == old(self).input(),
            eaten == holds_at(old(self).input(), old(self).position(), expected@),
            final(self).position() == old(self).position() + if eaten {
                expected@.len() as int
            } else {
                0int
            },
    {
        proof {
            use_type_invariant(&*self);
        }
        if !self.rest_starts_with(expected) {
            return false;
        }
        self.pos = self.pos + expected.len();
        true
    }

    /// Consumes the next `keyword.len()` bytes if they match `keyword` and
    /// are not followed by a byte that continues an identifier.
    ///
    /// Returns whether the keyword was consumed.
    pub fn eat_keyword(&mut self, keyword: &[u8]) -> (eaten: bool)
        ensures
            final(self).scratch_chars() == old(self).scratch_chars(),
            final(self).input() == old(self).input(),
            eaten == keyword_at(old(self).input(), old(self).position(), keyword@),
            final(self).position() == old(self).position() + if eaten {
                keyword@.len() as int
            } else {
                0int
            },
    {
        proof {
            use_type_invariant(&*self);
        }
        if !self.rest_starts_with(keyword) {
            return false;
        }
        let end = self.pos + keyword.len();
        // A keyword must be a token of its own (`null]`, `null 1`, but not `null_1`).
        if end < self.src.len() {
            let byte = self.src[end];
            if (0x30 <= byte && byte <= 0x39) || (0x41 <= byte && byte <= 0x5a) || (0x61 <= byte
                && byte <= 0x7a) || byte == 0x5f {
                return false;
            }
        }
        self.pos = end;
        true
    }

    /// Consumes `byte` if it comes next, otherwise reports that `expected`
    /// was missing at the current position.
    pub fn expect(&mut self, byte: u8, expected: &'static str) -> (res: Result<(), ParserError>)
        ensures
            final(self).scratch_chars() == old(self).scratch_chars(),
            final(self).input() == old(self).input(),
            old(self).next_byte() == Some(byte) ==> res == Ok::<(), ParserError>(()) && final(self).position() == old(
                self).position() + 1,
            old(self).next_byte() != Some(byte) ==> res == Err::<(), ParserError>(
                ParserError::Expected { pos: old(self).position() as usize, expected },
            ) && final(self).position() == old(self).position(),
    {
        if self.eat(byte) {
            return Ok(());
        }
        Err(ParserError::Expected { pos: self.pos, expected })
    }

    /// Skips the spaces, tabs and line breaks that are insignificant between
    /// tokens.
    pub fn skip_whitespace(&mut self)
        ensures
            final(self).scratch_chars() == old(self).scratch_chars(),
            final(self).input() == old(self).input(),
            final(self).position() == skip_whitespace_from(old(self).input(), old(self).position()),
            old(self).position() <= final(self).position() <= final(self).input().len(),
    {
        proof {
            use_type_invariant(&*self);
        }
        let ghost start = self.pos as int;
        let ghost src = self.src@;
        while self.pos < self.src.len() && (self.src[self.pos] == 0x20 || self.src[self.pos]
            == 0x09 || self.src[self.pos] == 0x0a || self.src[self.pos] == 0x0c
            || self.src[self.pos] == 0x0d)
            invariant
                self.src@ == src,
                self.scratch@ == old(self).scratch@,
                start <= self.pos <= self.src@.len(),
                skip_whitespace_from(self.src@, self.pos as int) == skip_whitespace_from(
                    self.src@,
                    start,
                ),
            decreases self.src@.len() - self.pos,
        {
            self.pos = self.pos + 1;
        }
    }

    /// Skips a run of entry separators (whitespace and `,`).
    ///
    /// Returns whether anything was skipped.
    pub fn skip_entry_separator(&mut self) -> (skipped: bool)
        ensures
            final(self).scratch_chars() == old(self).scratch_chars(),
            final(self).input() == old(self).input(),
            final(self).position() == skip_separators_from(old(self).input(), old(self).position()),
            skipped == (final(self).position() != old(self).position()),
            old(self).position() <= final(self).position() <= final(self).input().len(),
    {
        proof {
            use_type_invariant(&*self);
        }
        let start = self.pos;
        let ghost src = self.src@;
        while self.pos < self.src.len() && (self.src[self.pos] == 0x20 || self.src[self.pos]
            == 0x09 || self.src[self.pos] == 0x0a || self.src[self.pos] == 0x0c
            || self.src[self.pos] == 0x0d || self.src[self.pos] == 0x2c)
            invariant
                self.src@ == src,
                self.scratch@ == old(self).scratch@,
                start <= self.pos <= self.src@.len(),
                skip_separators_from(self.src@, self.pos as int) == skip_separators_from(
                    self.src@,
                    start as int,
                ),
            decreases self.src@.len() - self.pos,
        {
            self.pos = self.pos + 1;
        }
        self.pos != start
    }

    /// Checks that the document ends here: nothing but whitespace may follow
    /// the value that was read.
    ///
    /// ## Errors
    /// Something other than whitespace follows; the error points at it.
    pub fn expect_end(&mut self) -> (res: Result<(), ParserError>)
        ensures
            final(self).input() == old(self).input(),
            (res, final(self).position()) == end_spec(old(self).input(), old(self).position()),
    {
        self.skip_whitespace();
        proof {
            lemma_skip_whitespace_bounds(old(self).input(), old(self).position());
        }
        if self.peek().is_some() {
            return Err(ParserError::Expected { pos: self.pos(), expected: "end of input" });
        }
        Ok(())
    }

    /// Parses `true` or `false`.
    pub fn parse_bool(&mut self) -> (res: Result<bool, ParserError>)
        ensures
            final(self).input() == old(self).input(),
            keyword_at(old(self).input(), old(self).position(), seq![0x74u8, 0x72, 0x75, 0x65])
                ==> res == Ok::<bool, ParserError>(true) && final(self).position() == old(self).position() + 4,
            !keyword_at(old(self).input(), old(self).position(), seq![0x74u8, 0x72, 0x75, 0x65])
                && keyword_at(
                old(self).input(),
                old(self).position(),
                seq![0x66u8, 0x61, 0x6c, 0x73, 0x65],
            ) ==> res == Ok::<bool, ParserError>(false) && final(self).position() == old(self).position() + 5,
            !keyword_at(old(self).input(), old(self).position(), seq![0x74u8, 0x72, 0x75, 0x65])
                && !keyword_at(
                old(self).input(),
                old(self).position(),
                seq![0x66u8, 0x61, 0x6c, 0x73, 0x65],
            ) ==> res == Err::<bool, ParserError>(
                ParserError::Expected {
                    pos: old(self).position() as usize,
                    expected: "`true` or `false`",
                },
            ) && final(self).position() == old(self).position(),
    {
        let true_bytes: [u8; 4] = [0x74, 0x72, 0x75, 0x65];
        let false_bytes: [u8; 5] = [0x66, 0x61, 0x6c, 0x73, 0x65];
        assert(true_bytes@ =~= seq![0x74u8, 0x72, 0x75, 0x65]);
        assert(false_bytes@ =~= seq![0x66u8, 0x61, 0x6c, 0x73, 0x65]);
        if self.eat_keyword(&true_bytes) {
            return Ok(true);
        } else if self.eat_keyword(&false_bytes) {
            return Ok(false);
        }
        Err(ParserError::Expected { pos: self.pos, expected: "`true` or `false`" })
    }
}

} // verus!
