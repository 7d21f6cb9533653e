//! The parts of the evaluator that work on plain values: decoding string
//! literals, the operators on integers and scalars, and attaching source
//! spans to errors.

use vstd::prelude::*;
use vstd::std_specs::iter::IteratorSpec;

use miette::SourceSpan;

use crate::parser::ast::{InfixOp, PrefixOp};

verus! {

broadcast use vstd::string::group_string_axioms;

/// What the escape `\` `next` stands for in a string literal; an unknown
/// escape keeps both characters.
pub open spec fn unescape(next: char) -> Seq<char> {
    if next == 'n' {
        seq!['\n']
    } else if next == 'r' {
        seq!['\r']
    } else if next == 't' {
        seq!['\t']
    } else if next == '\\' {
        seq!['\\']
    } else if next == '"' {
        seq!['"']
    } else if next == '\'' {
        seq!['\'']
    } else {
        seq!['\\', next]
    }
}

/// The characters that a string literal with the characters `chars` stands
/// for: each escape is replaced by what it stands for, and a `\` at the very
/// end stands for itself.
pub open spec fn decode_string_spec(chars: Seq<char>) -> Seq<char>
    decreases chars.len(),
{
    if chars.len() == 0 {
        Seq::empty()
    } else if chars[0] != '\\' {
        seq![chars[0]] + decode_string_spec(chars.drop_first())
    } else if chars.len() == 1 {
        seq!['\\']
    } else {
        unescape(chars[1]) + decode_string_spec(chars.subrange(2, chars.len() as int))
    }
}

/// Decodes the escapes of a string literal.
pub fn decode_string(value: &str) -> (decoded: String)
    ensures
        decoded@ == decode_string_spec(value@),
{
    let mut decoded = String::new();
    let mut characters = value.chars();

    loop
        invariant
            decoded@ + decode_string_spec(characters.remaining()) == decode_string_spec(value@),
            characters.obeys_prophetic_iter_laws(),
            characters.decrease() is Some,
        ensures
            decoded@ == decode_string_spec(value@),
        decreases characters.decrease()->0,
    {
        let ghost rest = characters.remaining();
        let character = match characters.next() {
            Some(character) => character,
            None => {
                assert(decoded@ + Seq::<char>::empty() =~= decoded@);
                assert(decode_string_spec(rest) =~= Seq::<char>::empty());
                break;
            },
        };
        if character != '\\' {
            proof {
                assert(decode_string_spec(rest) == seq![character] + decode_string_spec(
                    characters.remaining(),
                ));
            }
            let ghost before = decoded@;
            crate::text::push_char(&mut decoded, character);
            assert(before + decode_string_spec(rest) =~= decoded@ + decode_string_spec(
                characters.remaining(),
            ));
            continue;
        }

        let ghost before = decoded@;
        match characters.next() {
            Some(next) => {
                proof {
                    assert(rest.drop_first().drop_first() =~= rest.subrange(2, rest.len() as int));
                }
                if next == 'n' {
                    crate::text::push_char(&mut decoded, '\n');
                } else if next == 'r' {
                    crate::text::push_char(&mut decoded, '\r');
                } else if next == 't' {
                    crate::text::push_char(&mut decoded, '\t');
                } else if next == '\\' {
                    crate::text::push_char(&mut decoded, '\\');
                } else if next == '"' {
                    crate::text::push_char(&mut decoded, '"');
                } else if next == '\'' {
                    crate::text::push_char(&mut decoded, '\'');
                } else {
                    crate::text::push_char(&mut decoded, '\\');
                    crate::text::push_char(&mut decoded, next);
                }
                assert(decoded@ =~= before + unescape(next));
                assert(before + decode_string_spec(rest) =~= decoded@ + decode_string_spec(
                    characters.remaining(),
                ));
            },
            None => {
                // A `\` at the very end stands for itself.
                crate::text::push_char(&mut decoded, '\\');
                assert(rest.len() == 1);
                assert(decode_string_spec(rest) == seq!['\\']);
                assert(decoded@ =~= before + decode_string_spec(rest));
                break;
            },
        }
    }

    decoded
}


/// What can go wrong while evaluating a document.
///
/// Variants whose span is optional are reported without a source position
/// by the operators and builtins; the evaluator attaches the span of the
/// expression it was evaluating with [`EvalError::at`].
#[allow(inconsistent_fields)]
#[derive(Debug, PartialEq, Eq)]
pub enum EvalError {
    AssertionFailed { span: Option<SourceSpan> },
    DuplicateKey { key: String, span: SourceSpan },
    DivisionByZero { span: Option<SourceSpan> },
    MixedDocumentForms { span: SourceSpan },
    MultipleExpressions { span: SourceSpan },
    Overflow { span: Option<SourceSpan> },
    PatternMismatch { span: SourceSpan },
    TypeMismatch { span: Option<SourceSpan> },
    UnknownIdentifier { name: String, span: SourceSpan },
    UnknownFunction { name: String, span: SourceSpan },
    UnknownModule { name: String, span: Option<SourceSpan> },
    NotCallable { span: SourceSpan },
    SymbolConflict { name: String, span: Option<SourceSpan> },
}

/// `current`, or `span` when there is none yet.
pub open spec fn or_span(current: Option<SourceSpan>, span: SourceSpan) -> Option<SourceSpan> {
    match current {
        Some(current) => Some(current),
        None => Some(span),
    }
}

/// The error `error` with `span` attached where it has no span yet.
pub open spec fn at_spec(error: EvalError, span: SourceSpan) -> EvalError {
    match error {
        EvalError::AssertionFailed { span: current } => EvalError::AssertionFailed {
            span: or_span(current, span),
        },
        EvalError::DivisionByZero { span: current } => EvalError::DivisionByZero {
            span: or_span(current, span),
        },
        EvalError::Overflow { span: current } => EvalError::Overflow {
            span: or_span(current, span),
        },
        EvalError::TypeMismatch { span: current } => EvalError::TypeMismatch {
            span: or_span(current, span),
        },
        EvalError::UnknownModule { name, span: current } => EvalError::UnknownModule {
            name,
            span: or_span(current, span),
        },
        EvalError::SymbolConflict { name, span: current } => EvalError::SymbolConflict {
            name,
            span: or_span(current, span),
        },
        error => error,
    }
}

/// Whether `error` names a source position.
pub open spec fn has_span(error: EvalError) -> bool {
    match error {
        EvalError::AssertionFailed { span } => span is Some,
        EvalError::DivisionByZero { span } => span is Some,
        EvalError::Overflow { span } => span is Some,
        EvalError::TypeMismatch { span } => span is Some,
        EvalError::UnknownModule { span, .. } => span is Some,
        EvalError::SymbolConflict { span, .. } => span is Some,
        _ => true,
    }
}

impl EvalError {
    /// Attaches `span` to an error that carries no source position yet.
    ///
    /// Builtins, scopes, and operator evaluation report errors without a
    /// source position, so the evaluator calls this with the span of the
    /// expression it was evaluating. Spans attached closer to the offending
    /// expression take precedence, and variants the evaluator always builds
    /// with a span are returned unchanged.
    pub fn at(self, span: SourceSpan) -> (error: Self)
        ensures
            error == at_spec(self, span),
    {
        match self {
            Self::AssertionFailed { span: current } => Self::AssertionFailed {
                span: match current {
                    Some(current) => Some(current),
                    None => Some(span),
                },
            },
            Self::DivisionByZero { span: current } => Self::DivisionByZero {
                span: match current {
                    Some(current) => Some(current),
                    None => Some(span),
                },
            },
            Self::Overflow { span: current } => Self::Overflow {
                span: match current {
                    Some(current) => Some(current),
                    None => Some(span),
                },
            },
            Self::TypeMismatch { span: current } => Self::TypeMismatch {
                span: match current {
                    Some(current) => Some(current),
                    None => Some(span),
                },
            },
            Self::UnknownModule { name, span: current } => Self::UnknownModule {
                name,
                span: match current {
                    Some(current) => Some(current),
                    None => Some(span),
                },
            },
            Self::SymbolConflict { name, span: current } => Self::SymbolConflict {
                name,
                span: match current {
                    Some(current) => Some(current),
                    None => Some(span),
                },
            },
            error => error,
        }
    }
}

/// A failed member lookup, reported as a failed call.
pub open spec fn unknown_function_spec(error: EvalError) -> EvalError {
    match error {
        EvalError::UnknownIdentifier { name, span } => EvalError::UnknownFunction { name, span },
        error => error,
    }
}

/// Rewrites a failed member lookup into a failed call.
pub fn to_unknown_function(error: EvalError) -> (rewritten: EvalError)
    ensures
        rewritten == unknown_function_spec(error),
{
    match error {
        EvalError::UnknownIdentifier { name, span } => EvalError::UnknownFunction { name, span },
        error => error,
    }
}

/// Attaching a span twice keeps the first: the span attached closest to the
/// offending expression takes precedence.
pub proof fn lemma_at_keeps_the_innermost_span(error: EvalError, inner: SourceSpan, outer: SourceSpan)
    ensures
        at_spec(at_spec(error, inner), outer) == at_spec(error, inner),
{
}

/// Once a span is attached, every error names a source position.
pub proof fn lemma_at_gives_a_span(error: EvalError, span: SourceSpan)
    ensures
        has_span(at_spec(error, span)),
{
}

/// An error that already names a position is left as it is.
pub proof fn lemma_at_keeps_a_present_span(error: EvalError, span: SourceSpan)
    requires
        has_span(error),
    ensures
        at_spec(error, span) == error,
{
}

/// An operand of the operators, and what they give.
///
/// Operators tell values apart by their kind and read only the contents of
/// scalars, so a list, a map or a function is a `Compound` here. Floating
/// point numbers are not operands of this library.
#[derive(Debug, PartialEq, Eq)]
pub enum Operand {
    /// `none`, `null` or `nil`.
    Null,
    Bool(bool),
    Int(i64),
    Str(String),
    /// A list, a map or a function.
    Compound,
}

/// Whether `value` is a scalar, the kind of value that `==` compares.
pub open spec fn is_scalar_operand(value: Operand) -> bool {
    value is Null || value is Bool || value is Int || value is Str
}

/// Whether two scalars are equal: of the same kind and with equal contents.
pub open spec fn operands_equal(left: Operand, right: Operand) -> bool {
    match (left, right) {
        (Operand::Null, Operand::Null) => true,
        (Operand::Bool(a), Operand::Bool(b)) => a == b,
        (Operand::Int(a), Operand::Int(b)) => a == b,
        (Operand::Str(a), Operand::Str(b)) => a@ == b@,
        _ => false,
    }
}

/// `base` raised to `exponent`, as an integer.
pub open spec fn int_pow(base: int, exponent: nat) -> int
    decreases exponent,
{
    if exponent == 0 {
        1
    } else {
        base * int_pow(base, (exponent - 1) as nat)
    }
}

/// What a prefix operator does to a value: it applies to integers only.
pub open spec fn unary_spec(op: PrefixOp, value: Operand) -> Result<Operand, EvalError> {
    match value {
        Operand::Int(value) => match op {
            PrefixOp::Positive => Ok(Operand::Int(value)),
            PrefixOp::Negative => if value == i64::MIN {
                Err(EvalError::Overflow { span: None })
            } else {
                Ok(Operand::Int((-value) as i64))
            },
        },
        _ => Err(EvalError::TypeMismatch { span: None }),
    }
}

/// `left / right` rounded toward zero, as Rust's `/` does.
pub open spec fn div_toward_zero(left: int, right: int) -> int {
    if (left >= 0) == (right > 0) || left == 0 {
        if left >= 0 {
            left / right
        } else {
            (-left) / (-right)
        }
    } else if left < 0 {
        -((-left) / right)
    } else {
        -(left / (-right))
    }
}

/// An integer result, or an overflow error when it does not fit in `i64`.
pub open spec fn checked_int(value: int) -> Result<Operand, EvalError> {
    if i64::MIN <= value <= i64::MAX {
        Ok(Operand::Int(value as i64))
    } else {
        Err(EvalError::Overflow { span: None })
    }
}

/// What an infix operator does to two integers.
pub open spec fn int_binary_spec(op: InfixOp, left: i64, right: i64) -> Result<Operand, EvalError> {
    match op {
        InfixOp::Add => checked_int(left + right),
        InfixOp::Sub => checked_int(left - right),
        InfixOp::Mul => checked_int(left * right),
        InfixOp::Div => if right == 0 {
            Err(EvalError::DivisionByZero { span: None })
        } else {
            checked_int(div_toward_zero(left as int, right as int))
        },
        InfixOp::Exp => if right < 0 {
            Err(EvalError::TypeMismatch { span: None })
        } else if right > u32::MAX {
            Err(EvalError::Overflow { span: None })
        } else {
            checked_int(int_pow(left as int, right as nat))
        },
        InfixOp::Equal => Ok(Operand::Bool(left == right)),
    }
}

/// What an infix operator does to two values: arithmetic on two integers,
/// `==` on two scalars, and a type mismatch otherwise.
pub open spec fn binary_spec(op: InfixOp, left: Operand, right: Operand) -> Result<
    Operand,
    EvalError,
> {
    match (left, right) {
        (Operand::Int(a), Operand::Int(b)) => int_binary_spec(op, a, b),
        _ => if op is Equal && is_scalar_operand(left) && is_scalar_operand(right) {
            Ok(Operand::Bool(operands_equal(left, right)))
        } else {
            Err(EvalError::TypeMismatch { span: None })
        },
    }
}

/// `i64::checked_pow`.
///
/// Claimed: it gives `base` raised to `exponent` when that fits in an `i64`,
/// and `None` when it overflows.
#[verifier::external_body]
fn checked_pow(base: i64, exponent: u32) -> (res: Option<i64>)
    ensures
        match res {
            Some(value) => value == int_pow(base as int, exponent as nat),
            None => !(i64::MIN <= int_pow(base as int, exponent as nat) <= i64::MAX),
        },
{
    base.checked_pow(exponent)
}

/// Applies a prefix operator to a value.
///
/// Negating `i64::MIN` reports an overflow, and an operand that is no
/// integer a type mismatch.
pub fn evaluate_unary(operator: &PrefixOp, value: Operand) -> (res: Result<Operand, EvalError>)
    ensures
        res == unary_spec(*operator, value),
{
    match value {
        Operand::Int(value) => match operator {
            PrefixOp::Positive => Ok(Operand::Int(value)),
            PrefixOp::Negative => if value == i64::MIN {
                Err(EvalError::Overflow { span: None })
            } else {
                Ok(Operand::Int(-value))
            },
        },
        _ => Err(EvalError::TypeMismatch { span: None }),
    }
}

/// Applies an infix operator to two integers.
fn evaluate_int_binary(op: &InfixOp, left: i64, right: i64) -> (res: Result<Operand, EvalError>)
    ensures
        res == int_binary_spec(*op, left, right),
{
    match op {
        InfixOp::Add => match left.checked_add(right) {
            Some(value) => Ok(Operand::Int(value)),
            None => Err(EvalError::Overflow { span: None }),
        },
        InfixOp::Sub => match left.checked_sub(right) {
            Some(value) => Ok(Operand::Int(value)),
            None => Err(EvalError::Overflow { span: None }),
        },
        InfixOp::Mul => match left.checked_mul(right) {
            Some(value) => Ok(Operand::Int(value)),
            None => Err(EvalError::Overflow { span: None }),
        },
        InfixOp::Div => if right == 0 {
            Err(EvalError::DivisionByZero { span: None })
        } else {
            match left.checked_div(right) {
                Some(value) => Ok(Operand::Int(value)),
                None => Err(EvalError::Overflow { span: None }),
            }
        },
        InfixOp::Exp => if right < 0 {
            Err(EvalError::TypeMismatch { span: None })
        } else if right > 0xffff_ffff {
            Err(EvalError::Overflow { span: None })
        } else {
            match checked_pow(left, right as u32) {
                Some(value) => Ok(Operand::Int(value)),
                None => Err(EvalError::Overflow { span: None }),
            }
        },
        InfixOp::Equal => Ok(Operand::Bool(left == right)),
    }
}

/// Applies an infix operator to two values.
///
/// Arithmetic takes two integers: a result that leaves the range of `i64`
/// reports an overflow, a zero divisor a division by zero, and a negative
/// exponent a type mismatch. `==` compares two scalars (`none`, booleans,
/// integers, strings), which are equal when of the same kind and with equal
/// contents. Any other operands are a type mismatch.
pub fn evaluate_binary(op: &InfixOp, left: Operand, right: Operand) -> (res: Result<
    Operand,
    EvalError,
>)
    ensures
        res == binary_spec(*op, left, right),
{
    match (left, right) {
        (Operand::Int(a), Operand::Int(b)) => evaluate_int_binary(op, a, b),
        (left, right) => {
            let equality = match op {
                InfixOp::Equal => true,
                _ => false,
            };
            if !equality {
                return Err(EvalError::TypeMismatch { span: None });
            }
            match (left, right) {
                (Operand::Null, Operand::Null) => Ok(Operand::Bool(true)),
                (Operand::Bool(a), Operand::Bool(b)) => Ok(Operand::Bool(a == b)),
                (Operand::Str(a), Operand::Str(b)) => Ok(Operand::Bool(a == b)),
                (Operand::Compound, _) | (_, Operand::Compound) => Err(
                    EvalError::TypeMismatch { span: None },
                ),
                _ => Ok(Operand::Bool(false)),
            }
        },
    }
}

/// `==` on two booleans, two integers or two strings is true exactly when
/// they are equal; `none` equals `none`; and scalars of different kinds are
/// never equal.
pub proof fn lemma_equality_compares_scalars(a: bool, b: bool, i: i64, j: i64, s: String, t: String)
    ensures
        binary_spec(InfixOp::Equal, Operand::Bool(a), Operand::Bool(b)) == Ok::<Operand, EvalError>(
            Operand::Bool(a == b),
        ),
        binary_spec(InfixOp::Equal, Operand::Int(i), Operand::Int(j)) == Ok::<Operand, EvalError>(
            Operand::Bool(i == j),
        ),
        binary_spec(InfixOp::Equal, Operand::Str(s), Operand::Str(t)) == Ok::<Operand, EvalError>(
            Operand::Bool(s@ == t@),
        ),
        binary_spec(InfixOp::Equal, Operand::Null, Operand::Null) == Ok::<Operand, EvalError>(
            Operand::Bool(true),
        ),
        binary_spec(InfixOp::Equal, Operand::Bool(a), Operand::Int(i)) == Ok::<Operand, EvalError>(
            Operand::Bool(false),
        ),
        binary_spec(InfixOp::Equal, Operand::Null, Operand::Bool(a)) == Ok::<Operand, EvalError>(
            Operand::Bool(false),
        ),
        binary_spec(InfixOp::Equal, Operand::Int(i), Operand::Str(s)) == Ok::<Operand, EvalError>(
            Operand::Bool(false),
        ),
{
}

/// `==` is reflexive on scalars, and symmetric on all values: swapping the
/// operands gives the same answer.
pub proof fn lemma_equality_is_reflexive_and_symmetric(value: Operand, left: Operand, right: Operand)
    ensures
        is_scalar_operand(value) ==> binary_spec(InfixOp::Equal, value, value) == Ok::<
            Operand,
            EvalError,
        >(Operand::Bool(true)),
        binary_spec(InfixOp::Equal, left, right) == binary_spec(InfixOp::Equal, right, left),
{
}

/// Negating an integer other than `i64::MIN` gives its additive inverse, so
/// negating twice gives it back; `+` leaves an integer as it is.
pub proof fn lemma_negation_is_the_inverse(v: i64)
    requires
        v != i64::MIN,
    ensures
        unary_spec(PrefixOp::Negative, Operand::Int(v)) matches Ok(Operand::Int(w)) && w + v == 0
            && unary_spec(PrefixOp::Negative, Operand::Int(w)) == Ok::<Operand, EvalError>(
            Operand::Int(v),
        ),
        unary_spec(PrefixOp::Positive, Operand::Int(v)) == Ok::<Operand, EvalError>(
            Operand::Int(v),
        ),
{
}

/// Decoding keeps text without a `\` in front of it: for escape-free `plain`,
/// decoding `plain` followed by `rest` gives `plain` followed by the decoding
/// of `rest`.
pub proof fn lemma_decode_keeps_plain_text(plain: Seq<char>, rest: Seq<char>)
    requires
        forall|i: int| 0 <= i < plain.len() ==> plain[i] != '\\',
    ensures
        decode_string_spec(plain + rest) == plain + decode_string_spec(rest),
    decreases plain.len(),
{
    if plain.len() > 0 {
        let tail = plain.drop_first();
        assert((plain + rest).drop_first() =~= tail + rest);
        lemma_decode_keeps_plain_text(tail, rest);
        assert(plain =~= seq![plain[0]] + tail);
    } else {
        assert(plain + rest =~= rest);
    }
}

/// Decoding text that holds no `\` gives the text unchanged.
pub proof fn lemma_decode_is_identity_without_escapes(chars: Seq<char>)
    requires
        forall|i: int| 0 <= i < chars.len() ==> chars[i] != '\\',
    ensures
        decode_string_spec(chars) == chars,
{
    lemma_decode_keeps_plain_text(chars, Seq::empty());
    assert(chars + Seq::<char>::empty() =~= chars);
    assert(decode_string_spec(Seq::<char>::empty()) =~= Seq::<char>::empty());
}

/// Addition, subtraction and multiplication of two integers give the exact
/// result when it fits in an `i64`, and an overflow otherwise.
pub proof fn lemma_arithmetic_is_exact_or_overflows(a: i64, b: i64)
    ensures
        binary_spec(InfixOp::Add, Operand::Int(a), Operand::Int(b)) == if i64::MIN <= a + b
            <= i64::MAX {
            Ok::<Operand, EvalError>(Operand::Int((a + b) as i64))
        } else {
            Err(EvalError::Overflow { span: None })
        },
        binary_spec(InfixOp::Sub, Operand::Int(a), Operand::Int(b)) == if i64::MIN <= a - b
            <= i64::MAX {
            Ok::<Operand, EvalError>(Operand::Int((a - b) as i64))
        } else {
            Err(EvalError::Overflow { span: None })
        },
        binary_spec(InfixOp::Mul, Operand::Int(a), Operand::Int(b)) == if i64::MIN <= a * b
            <= i64::MAX {
            Ok::<Operand, EvalError>(Operand::Int((a * b) as i64))
        } else {
            Err(EvalError::Overflow { span: None })
        },
{
}

/// Division by zero is an error; otherwise the quotient is rounded toward
/// zero: what remains of `a` after taking `q * b` is smaller than `b` and
/// has the sign of `a`.
pub proof fn lemma_division_rounds_toward_zero(a: i64, b: i64)
    ensures
        b == 0 ==> binary_spec(InfixOp::Div, Operand::Int(a), Operand::Int(b)) == Err::<
            Operand,
            EvalError,
        >(EvalError::DivisionByZero { span: None }),
        b != 0 && !(a == i64::MIN && b == -1) ==> (binary_spec(
            InfixOp::Div,
            Operand::Int(a),
            Operand::Int(b),
        ) matches Ok(Operand::Int(q)) && {
            let r = a - q * b;
            &&& (if b > 0 { -b < r < b } else { b < r < -b })
            &&& (r == 0 || (r > 0) == (a > 0))
        }),
        b == -1 && a == i64::MIN ==> binary_spec(InfixOp::Div, Operand::Int(a), Operand::Int(b))
            == Err::<Operand, EvalError>(EvalError::Overflow { span: None }),
{
    if b != 0 {
        lemma_div_toward_zero(a as int, b as int);
    }
}

/// What rounding `x / y` toward zero to `q` means: the remainder is smaller
/// than the divisor and has the sign of the dividend, and `q` is `x` for
/// `y == 1`, `-x` for `y == -1`, and smaller than `x` in magnitude otherwise.
spec fn rounds_toward_zero(x: int, y: int, q: int) -> bool {
    let r = x - q * y;
    &&& (if y > 0 { -y < r < y } else { y < r < -y })
    &&& (r == 0 || (r > 0) == (x > 0))
    &&& (y == 1 ==> q == x)
    &&& (y == -1 ==> q == -x)
    &&& (y != -1 && y != 1 && x != 0 ==> -(if x >= 0 { x } else { -x }) < q < (if x >= 0 {
        x
    } else {
        -x
    }))
}

/// The quotient rounded toward zero of two nonnegative numbers.
proof fn lemma_quotient_of_positives(u: int, v: int)
    requires
        u >= 0,
        v > 0,
    ensures
        u == v * (u / v) + u % v,
        0 <= u % v < v,
        v == 1 ==> u / v == u,
        v > 1 && u > 0 ==> u / v < u,
        0 <= u / v,
{
    assert(u == v * (u / v) + u % v && 0 <= u % v < v) by (nonlinear_arith)
        requires
            v > 0,
    ;
    assert(0 <= u / v) by (nonlinear_arith)
        requires
            u >= 0,
            v > 0,
    ;
    if v == 1 {
        assert(u / v == u) by (nonlinear_arith)
            requires
                v == 1,
        ;
    }
    if v > 1 && u > 0 {
        assert(u / v < u) by (nonlinear_arith)
            requires
                u > 0,
                v > 1,
        ;
    }
}

proof fn lemma_div_toward_zero(x: int, y: int)
    requires
        y != 0,
    ensures
        rounds_toward_zero(x, y, div_toward_zero(x, y)),
{
    let q = div_toward_zero(x, y);
    let ux = if x >= 0 { x } else { -x };
    let uy = if y > 0 { y } else { -y };
    lemma_quotient_of_positives(ux, uy);
    let m = ux / uy;
    let k = ux % uy;
    // `q` is `m` with the sign of `x * y`.
    assert(q == (if (x >= 0) == (y > 0) || x == 0 { m } else { -m })) by {
        if x == 0 {
            assert(m == 0) by (nonlinear_arith)
                requires
                    ux == 0,
                    uy > 0,
                    m == ux / uy,
            ;
            assert(x / y == 0) by (nonlinear_arith)
                requires
                    x == 0,
                    y != 0,
            ;
        }
    }
    assert(rounds_toward_zero(x, y, q)) by (nonlinear_arith)
        requires
            ux == (if x >= 0 { x } else { -x }),
            uy == (if y > 0 { y } else { -y }),
            ux == uy * m + k,
            0 <= k < uy,
            0 <= m,
            uy == 1 ==> m == ux,
            uy > 1 && ux > 0 ==> m < ux,
            q == (if (x >= 0) == (y > 0) || x == 0 { m } else { -m }),
            y != 0,
    ;
}

/// A negative exponent is a type mismatch; any integer to the power `0` is
/// `1`, and raising to `e + 1` multiplies the power to `e` by the base.
pub proof fn lemma_exponent_multiplies(a: i64, e: i64)
    ensures
        e < 0 ==> binary_spec(InfixOp::Exp, Operand::Int(a), Operand::Int(e)) == Err::<
            Operand,
            EvalError,
        >(EvalError::TypeMismatch { span: None }),
        binary_spec(InfixOp::Exp, Operand::Int(a), Operand::Int(0)) == Ok::<Operand, EvalError>(
            Operand::Int(1),
        ),
        0 <= e < u32::MAX ==> (binary_spec(InfixOp::Exp, Operand::Int(a), Operand::Int(e))
            matches Ok(Operand::Int(p)) ==> binary_spec(
            InfixOp::Exp,
            Operand::Int(a),
            Operand::Int((e + 1) as i64),
        ) == if i64::MIN <= a * p <= i64::MAX {
            Ok::<Operand, EvalError>(Operand::Int((a * p) as i64))
        } else {
            Err(EvalError::Overflow { span: None })
        }),
{
    assert(int_pow(a as int, 0) == 1);
    if 0 <= e < u32::MAX {
        assert(int_pow(a as int, (e + 1) as nat) == a * int_pow(a as int, e as nat));
    }
}

/// The escapes `\n`, `\r`, `\t`, `\\`, `\"` and `\'` stand for a line feed, a
/// carriage return, a tab, a backslash, a double and a single quote; any
/// other escape keeps both of its characters; and decoding goes on after it.
pub proof fn lemma_decode_escapes(c: char, rest: Seq<char>)
    ensures
        decode_string_spec(seq!['\\', c] + rest) == (if c == 'n' {
            seq!['\n']
        } else if c == 'r' {
            seq!['\r']
        } else if c == 't' {
            seq!['\t']
        } else if c == '\\' || c == '"' || c == '\'' {
            seq![c]
        } else {
            seq!['\\', c]
        }) + decode_string_spec(rest),
{
    let chars = seq!['\\', c] + rest;
    assert(chars.subrange(2, chars.len() as int) =~= rest);
}

} // verus!
