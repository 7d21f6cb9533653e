use vstd::prelude::*;

verus! {

/// Everything that can go wrong while reading a document.
///
/// Each variant records the byte offset into the source at which the problem
/// was found.
#[allow(inconsistent_fields)]
#[derive(Debug, PartialEq, Eq)]
pub enum ParserError {
    /// A number was expected, but no digit was found.
    InvalidInt { pos: usize },
    /// The digits describe a value that does not fit in the type `ty`.
    Overflow { pos: usize, ty: &'static str },
    /// The input ended before the closing `"` of a string.
    UnterminatedString { pos: usize },
    /// A `\` is followed by something that is not an escape sequence.
    InvalidEscape { pos: usize, msg: &'static str },
    /// A `\u` escape is malformed or breaks a surrogate pair.
    InvalidUtf16 { pos: usize, msg: &'static str },
    /// A C0 control character appears unescaped inside a string.
    ControlCharacter { pos: usize, byte: u8 },
    /// The raw bytes of a string are not valid UTF-8.
    InvalidUtf8 { pos: usize },
    /// Two entries follow each other without a separator in between.
    MissingSeparator { pos: usize },
    /// A map key is not one of the keys that the reader asked for.
    InvalidIdentifier { pos: usize, found: String },
    /// The byte at `pos` is not the one that the grammar requires.
    Expected { pos: usize, expected: &'static str },
    /// A message reported by the consumer of the parsed values.
    Custom { msg: String },
}

/// The variant of a [`ParserError`], without its data.
#[derive(Debug, Clone, Copy, PartialEq, Eq)]
pub enum ParserErrorKind {
    InvalidInt,
    Overflow,
    UnterminatedString,
    InvalidEscape,
    InvalidUtf16,
    ControlCharacter,
    InvalidUtf8,
    Expected,
    InvalidIdentifier,
    MissingSeparator,
    Custom,
}

/// The kind of an error, as a spec function.
pub open spec fn kind_of(error: ParserError) -> ParserErrorKind {
    match error {
        ParserError::InvalidInt { .. } => ParserErrorKind::InvalidInt,
        ParserError::Overflow { .. } => ParserErrorKind::Overflow,
        ParserError::UnterminatedString { .. } => ParserErrorKind::UnterminatedString,
        ParserError::InvalidEscape { .. } => ParserErrorKind::InvalidEscape,
        ParserError::InvalidUtf16 { .. } => ParserErrorKind::InvalidUtf16,
        ParserError::ControlCharacter { .. } => ParserErrorKind::ControlCharacter,
        ParserError::InvalidUtf8 { .. } => ParserErrorKind::InvalidUtf8,
        ParserError::MissingSeparator { .. } => ParserErrorKind::MissingSeparator,
        ParserError::InvalidIdentifier { .. } => ParserErrorKind::InvalidIdentifier,
        ParserError::Expected { .. } => ParserErrorKind::Expected,
        ParserError::Custom { .. } => ParserErrorKind::Custom,
    }
}

impl ParserError {
    /// Returns the variant of this error.
    pub fn kind(&self) -> (kind: ParserErrorKind)
        ensures
            kind == kind_of(*self),
    {
        match self {
            ParserError::InvalidInt { .. } => ParserErrorKind::InvalidInt,
            ParserError::Overflow { .. } => ParserErrorKind::Overflow,
            ParserError::InvalidEscape { .. } => ParserErrorKind::InvalidEscape,
            ParserError::UnterminatedString { .. } => ParserErrorKind::UnterminatedString,
            ParserError::InvalidUtf16 { .. } => ParserErrorKind::InvalidUtf16,
            ParserError::ControlCharacter { .. } => ParserErrorKind::ControlCharacter,
            ParserError::InvalidUtf8 { .. } => ParserErrorKind::InvalidUtf8,
            ParserError::Expected { .. } => ParserErrorKind::Expected,
            ParserError::InvalidIdentifier { .. } => ParserErrorKind::InvalidIdentifier,
            ParserError::MissingSeparator { .. } => ParserErrorKind::MissingSeparator,
            ParserError::Custom { .. } => ParserErrorKind::Custom,
        }
    }
}

} // verus!
