//! The entry point that reads one document of bytes.

use vstd::prelude::*;

use crate::parser::Parser;

verus! {

/// Reads the values of a document, one after the other, from its bytes.
///
/// The serde driver that turns these reads into typed values lives outside
/// the verified library; it calls the methods of `parser`.
pub struct Deserializer<'de> {
    pub parser: Parser<'de>,
}

impl<'de> Deserializer<'de> {
    /// Creates a deserializer for `src`.
    pub fn new(src: &'de [u8]) -> (deserializer: Self)
        ensures
            deserializer.parser.input() == src@,
            deserializer.parser.position() == 0,
    {
        Deserializer { parser: Parser::new(src) }
    }
}

} // verus!
