//! The pieces of the expression syntax that the evaluator works on.

use vstd::prelude::*;

verus! {

/// A name that refers to a binding.
#[derive(Debug, PartialEq, Eq)]
pub enum Identifier<'input> {
    Simple(&'input str),
}

/// An operator written in front of its operand.
#[derive(Debug, PartialEq, Eq, Clone, Copy)]
pub enum PrefixOp {
    Positive,
    Negative,
}

/// An operator written between its operands.
#[derive(Debug, PartialEq, Eq, Clone, Copy)]
pub enum InfixOp {
    Add,
    Sub,
    Mul,
    Div,
    Exp,
    Equal,
}

} // verus!
