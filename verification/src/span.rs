//! Source positions of parsed values.

use vstd::prelude::*;

use miette::SourceSpan;

verus! {

/// `miette::SourceSpan`, carried through unchanged.
#[verifier::external_type_specification]
#[verifier::external_body]
pub struct ExSourceSpan(SourceSpan);

/// A value paired with the span of the source text it was parsed from.
pub struct Spanned<T> {
    pub value: T,
    pub span: SourceSpan,
}

} // verus!
