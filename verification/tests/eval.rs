use djson::eval::{
    decode_string, evaluate_binary, evaluate_unary, to_unknown_function, EvalError, Operand,
};
use djson::parser::ast::{InfixOp, PrefixOp};
use miette::SourceSpan;

fn integer(value: i64) -> Operand {
    Operand::Int(value)
}

fn text(value: &str) -> Operand {
    Operand::Str(value.to_string())
}

fn span(offset: usize, len: usize) -> SourceSpan {
    SourceSpan::from((offset, len))
}

#[test]
fn decodes_string_escapes() {
    // The contents of the literal `"line\n\t\"quote\"\\path"`.
    assert_eq!(decode_string(r#"line\n\t\"quote\"\\path"#), "line\n\t\"quote\"\\path");
    assert_eq!(decode_string(r"unknown\q"), r"unknown\q");
}

#[test]
fn decodes_every_known_escape() {
    assert_eq!(decode_string(r#"\n\r\t\\\"\'"#), "\n\r\t\\\"'");
    assert_eq!(decode_string("plain"), "plain");
    assert_eq!(decode_string(""), "");
}

#[test]
fn keeps_a_trailing_backslash() {
    assert_eq!(decode_string("end\\"), "end\\");
    assert_eq!(decode_string("\\"), "\\");
}

#[test]
fn keeps_unknown_escapes_of_any_character() {
    assert_eq!(decode_string(r"\é\u"), r"\é\u");
}

#[test]
fn applies_prefix_operators() {
    assert_eq!(evaluate_unary(&PrefixOp::Positive, integer(-5)), Ok(integer(-5)));
    assert_eq!(evaluate_unary(&PrefixOp::Negative, integer(5)), Ok(integer(-5)));
    assert_eq!(evaluate_unary(&PrefixOp::Negative, integer(i64::MAX)), Ok(integer(-i64::MAX)));
    assert_eq!(
        evaluate_unary(&PrefixOp::Negative, integer(i64::MIN)),
        Err(EvalError::Overflow { span: None })
    );
}

#[test]
fn applies_arithmetic_operators() {
    assert_eq!(evaluate_binary(&InfixOp::Add, integer(1), integer(2)), Ok(Operand::Int(3)));
    assert_eq!(evaluate_binary(&InfixOp::Sub, integer(1), integer(2)), Ok(Operand::Int(-1)));
    assert_eq!(evaluate_binary(&InfixOp::Mul, integer(2), integer(3)), Ok(Operand::Int(6)));
    assert_eq!(evaluate_binary(&InfixOp::Div, integer(7), integer(2)), Ok(Operand::Int(3)));
    assert_eq!(evaluate_binary(&InfixOp::Div, integer(-7), integer(2)), Ok(Operand::Int(-3)));
    assert_eq!(evaluate_binary(&InfixOp::Div, integer(7), integer(-2)), Ok(Operand::Int(-3)));
    assert_eq!(evaluate_binary(&InfixOp::Div, integer(-7), integer(-2)), Ok(Operand::Int(3)));
    assert_eq!(evaluate_binary(&InfixOp::Exp, integer(2), integer(10)), Ok(Operand::Int(1024)));
    assert_eq!(evaluate_binary(&InfixOp::Exp, integer(-3), integer(3)), Ok(Operand::Int(-27)));
    assert_eq!(evaluate_binary(&InfixOp::Exp, integer(5), integer(0)), Ok(Operand::Int(1)));
}

#[test]
fn compares_integers() {
    assert_eq!(evaluate_binary(&InfixOp::Equal, integer(1), integer(1)), Ok(Operand::Bool(true)));
    assert_eq!(evaluate_binary(&InfixOp::Equal, integer(1), integer(2)), Ok(Operand::Bool(false)));
}

#[test]
fn reports_overflow() {
    let overflow = Err(EvalError::Overflow { span: None });
    assert_eq!(evaluate_binary(&InfixOp::Add, integer(i64::MAX), integer(1)), overflow);
    assert_eq!(evaluate_binary(&InfixOp::Sub, integer(i64::MIN), integer(1)), overflow);
    assert_eq!(evaluate_binary(&InfixOp::Mul, integer(i64::MAX), integer(2)), overflow);
    assert_eq!(evaluate_binary(&InfixOp::Div, integer(i64::MIN), integer(-1)), overflow);
    assert_eq!(evaluate_binary(&InfixOp::Exp, integer(2), integer(63)), overflow);
    assert_eq!(evaluate_binary(&InfixOp::Exp, integer(2), integer(1 << 32)), overflow);
    assert_eq!(evaluate_binary(&InfixOp::Exp, integer(-2), integer(63)), Ok(Operand::Int(i64::MIN)));
}

#[test]
fn rejects_division_by_zero_of_integers() {
    assert_eq!(
        evaluate_binary(&InfixOp::Div, integer(1), integer(0)),
        Err(EvalError::DivisionByZero { span: None })
    );
}

#[test]
fn rejects_negative_exponents() {
    assert_eq!(
        evaluate_binary(&InfixOp::Exp, integer(2), integer(-1)),
        Err(EvalError::TypeMismatch { span: None })
    );
}

#[test]
fn attaches_a_span_to_errors_without_one() {
    let error = EvalError::DivisionByZero { span: None }.at(span(10, 5));
    assert_eq!(error, EvalError::DivisionByZero { span: Some(span(10, 5)) });

    let error = EvalError::UnknownModule { name: "missing".to_string(), span: None }.at(span(0, 3));
    assert_eq!(
        error,
        EvalError::UnknownModule { name: "missing".to_string(), span: Some(span(0, 3)) }
    );
}

#[test]
fn keeps_the_innermost_span() {
    let inner = EvalError::Overflow { span: None }.at(span(4, 1));
    let outer = inner.at(span(0, 9));
    assert_eq!(outer, EvalError::Overflow { span: Some(span(4, 1)) });
}

#[test]
fn leaves_errors_that_always_carry_a_span() {
    let error = EvalError::NotCallable { span: span(2, 2) };
    assert_eq!(error.at(span(0, 9)), EvalError::NotCallable { span: span(2, 2) });
}

#[test]
fn rewrites_unknown_identifiers_into_unknown_functions() {
    let error = EvalError::UnknownIdentifier { name: "missing".to_string(), span: span(8, 7) };
    assert_eq!(
        to_unknown_function(error),
        EvalError::UnknownFunction { name: "missing".to_string(), span: span(8, 7) }
    );
    let error = EvalError::TypeMismatch { span: None };
    assert_eq!(to_unknown_function(error), EvalError::TypeMismatch { span: None });
}

#[test]
fn compares_scalars_by_kind_and_contents() {
    let equal = |left, right| evaluate_binary(&InfixOp::Equal, left, right);
    assert_eq!(equal(Operand::Null, Operand::Null), Ok(Operand::Bool(true)));
    assert_eq!(equal(Operand::Bool(true), Operand::Bool(true)), Ok(Operand::Bool(true)));
    assert_eq!(equal(Operand::Bool(true), Operand::Bool(false)), Ok(Operand::Bool(false)));
    assert_eq!(equal(text("value"), text("value")), Ok(Operand::Bool(true)));
    assert_eq!(equal(text("value"), text("other")), Ok(Operand::Bool(false)));
    assert_eq!(equal(integer(1), text("1")), Ok(Operand::Bool(false)));
    assert_eq!(equal(Operand::Null, Operand::Bool(false)), Ok(Operand::Bool(false)));
}

#[test]
fn rejects_operators_on_values_they_do_not_apply_to() {
    let mismatch = Err(EvalError::TypeMismatch { span: None });
    assert_eq!(evaluate_binary(&InfixOp::Equal, Operand::Compound, Operand::Compound), mismatch);
    assert_eq!(evaluate_binary(&InfixOp::Equal, integer(1), Operand::Compound), mismatch);
    assert_eq!(evaluate_binary(&InfixOp::Add, Operand::Bool(true), integer(1)), mismatch);
    assert_eq!(evaluate_binary(&InfixOp::Add, text("a"), text("b")), mismatch);
    assert_eq!(evaluate_binary(&InfixOp::Div, Operand::Null, integer(1)), mismatch);
    assert_eq!(evaluate_unary(&PrefixOp::Negative, Operand::Bool(true)), mismatch);
    assert_eq!(evaluate_unary(&PrefixOp::Positive, text("1")), mismatch);
}
