use djson::{Parser, ParserError};

/// Parses `src` as a `u64` and returns the input left unconsumed.
fn parse(src: &str) -> (Result<u64, ParserError>, &str) {
    let src_bytes = src.as_bytes();
    let mut parser = Parser::new(src_bytes);
    let result = parser.parse_u64();
    let rest = std::str::from_utf8(&src_bytes[parser.pos()..]).expect("test input is text");
    (result, rest)
}

/// Asserts that `src` parses to `expected` and is consumed entirely.
fn assert_parses(src: &str, expected: u64) {
    let (result, rest) = parse(src);
    let value = result.unwrap_or_else(|error| panic!("parsing `{src}`: {error:?}"));
    assert_eq!(value, expected, "value of `{src}`");
    assert_eq!(rest, "", "`{src}` is consumed entirely");
}

/// Asserts that nothing is consumed of `src` and it reports an invalid integer.
fn assert_rejected_without_advancing(src: &str) {
    let (result, rest) = parse(src);
    assert!(
        matches!(result, Err(ParserError::InvalidInt { .. })),
        "parsing `{src}` should report an invalid integer"
    );
    assert_eq!(rest, src, "nothing is consumed of `{src}`");
}

#[test]
fn parses_u64() {
    for (src, expected) in [
        ("0", 0),
        ("1", 1),
        ("007", 7),
        ("12345", 12345),
        ("18446744073709551615", u64::MAX),
        // With separators
        ("1_", 1),
        ("1_2", 12),
        ("1__0", 10),
        ("1_000", 1_000),
        ("18_446_744_073_709_551_615", u64::MAX),
    ] {
        assert_parses(src, expected);
    }
}

#[test]
fn rejects_input_that_does_not_start_with_a_digit() {
    for src in ["", "abc", "@", "+1", " 1", "_", "___", "_1"] {
        assert_rejected_without_advancing(src);
    }
}

#[test]
fn rejects_values_above_u64_max() {
    let (result, _rest) = parse("18_446_744_073_709_551_616");
    assert!(
        matches!(result, Err(ParserError::Overflow { pos: 0, ty: "u64" })),
        "a value above `u64::MAX` should overflow `u64`"
    );
}

#[test]
fn stops_at_the_first_byte_outside_the_number() {
    for (src, expected, rest) in [
        ("12,", 12, ","),
        ("1x", 1, "x"),
        ("1 2", 1, " 2"),
        ("1.5", 1, ".5"),
        ("1_000_000e", 1_000_000, "e"),
    ] {
        let (result, actual_rest) = parse(src);
        let value = result.unwrap_or_else(|error| panic!("parsing `{src}`: {error:?}"));
        assert_eq!(value, expected, "value of `{src}`");
        assert_eq!(actual_rest, rest, "unconsumed rest of `{src}`");
    }
}

#[test]
fn reports_overflow_right_after_the_digit_that_overflows() {
    // The 20th digit makes the value exceed `u64::MAX`; the reader stops behind it.
    let (result, rest) = parse("18446744073709551616_7");
    assert_eq!(result, Err(ParserError::Overflow { pos: 0, ty: "u64" }));
    assert_eq!(rest, "_7");
}

#[test]
fn reads_twenty_digits_with_leading_zeros() {
    assert_parses("00000000000000000001", 1);
    assert_parses("0_0000000000000000000000042", 42);
}

#[test]
fn reads_back_the_decimal_digits_of_any_value() {
    for n in [0u64, 9, 10, 4_294_967_296, u64::MAX / 3, u64::MAX] {
        let text = format!("{n}]");
        let mut parser = Parser::new(text.as_bytes());
        assert_eq!(parser.parse_u64(), Ok(n));
        assert_eq!(parser.pos(), text.len() - 1);
    }
}

#[test]
fn narrower_integers_agree_with_u64_within_their_range() {
    for src in ["0", "255", "256", "65_535", "65536", "4294967295", "4294967296"] {
        let wide = Parser::new(src.as_bytes()).parse_u64().unwrap();
        assert_eq!(Parser::new(src.as_bytes()).parse_u8().ok().map(u64::from), (wide <= 255).then_some(wide));
        assert_eq!(Parser::new(src.as_bytes()).parse_u16().ok().map(u64::from), (wide <= 65535).then_some(wide));
        assert_eq!(
            Parser::new(src.as_bytes()).parse_u32().ok().map(u64::from),
            (wide <= u64::from(u32::MAX)).then_some(wide)
        );
    }
}
