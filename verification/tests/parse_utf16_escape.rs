use djson::{ParsedStr, Parser, ParserError, ParserErrorKind};

fn parse_str(src: &str) -> Result<(), ParserError> {
    Parser::new(src.as_bytes()).parse_str().map(drop)
}

#[test]
fn parse_utf16_escape_deserializes() {
    let borrowed = true;
    let owned = !borrowed;

    let cases: Vec<(&[u8], &str, bool, &str)> = vec![
        // --- UTF-16 ---
        (br#""\u30ad\u30AD\u0041""#, "キキA", owned, ""), // case insensitive
        (br#""\ud83d\ude00\uD83D\uDE00""#, "😀😀", owned, ""), // only valid as a pair
        (
            //   0000-FFFF,    1_0000-10_ffff
            br#""\u0000-\uffff \ud800\udc00-\udbff\udfff""#,
            "\u{0000}-\u{ffff} \u{10000}-\u{10ffff}",
            owned,
            "",
        ),
    ];

    for (src, exp_value, exp_borrowed, exp_rest) in cases {
        let mut parser = Parser::new(src);
        let parsed = parser.parse_str().expect("parses");
        assert_eq!(matches!(parsed, ParsedStr::Borrowed(_)), exp_borrowed);
        assert_eq!(parsed.as_str(), exp_value);
        let src_utf8 = std::str::from_utf8(src).unwrap();
        assert_eq!(&src_utf8[parser.pos()..], exp_rest);
    }
}

#[test]
fn parse_utf16_escape_expect_errors() {
    type Case = (&'static str, fn(&str) -> Result<(), ParserError>, ParserErrorKind);

    let cases_json_utf16: &[Case] = &[
        // `\u` not followed by four hexadecimal digits
        (r#""\u""#, parse_str, ParserErrorKind::InvalidUtf16),
        (r#""\u12""#, parse_str, ParserErrorKind::InvalidUtf16),
        (r#""\u12g4""#, parse_str, ParserErrorKind::InvalidUtf16), // g is not hex
    ];

    let cases_djson_utf16: &[Case] = &[
        // Reject lone surrogate pairs
        (r#""\ud800""#, parse_str, ParserErrorKind::InvalidUtf16),
        (r#""\udbff""#, parse_str, ParserErrorKind::InvalidUtf16),
        (r#""\udc00""#, parse_str, ParserErrorKind::InvalidUtf16),
        (r#""\udfff""#, parse_str, ParserErrorKind::InvalidUtf16),
        // Reject pairs in wrong surrogate order
        (r#""\ud800\u0041""#, parse_str, ParserErrorKind::InvalidUtf16),
        (r#""\ud800\ud800""#, parse_str, ParserErrorKind::InvalidUtf16),
        (r#""\ud800x""#, parse_str, ParserErrorKind::InvalidUtf16),
    ];

    let cases = cases_json_utf16.iter().chain(cases_djson_utf16);

    for &(source, parse, expected) in cases {
        let actual = match parse(source) {
            Ok(()) => panic!("parsing `{source}` was meant to fail"),
            Err(error) => error.kind(),
        };
        assert_eq!(actual, expected);
    }
}

#[test]
fn reports_utf16_errors_at_their_positions() {
    let low_surrogate = "a low surrogate must follow a high surrogate";
    let hex_digits = "expected 4 hex digits";
    // Each input, the error, and where the reader stands after it.
    let cases: &[(&str, ParserError, usize)] = &[
        (r#""\u12"#, ParserError::InvalidUtf16 { pos: 5, msg: hex_digits }, 3),
        (r#""\u12g4""#, ParserError::InvalidUtf16 { pos: 3, msg: hex_digits }, 3),
        (r#""\ud800x""#, ParserError::InvalidUtf16 { pos: 2, msg: low_surrogate }, 7),
        (r#""\udc00""#, ParserError::InvalidUtf16 { pos: 2, msg: low_surrogate }, 7),
        (r#""\ud800\u0041""#, ParserError::InvalidUtf16 { pos: 2, msg: low_surrogate }, 13),
        (r#""\ud800\u00""#, ParserError::InvalidUtf16 { pos: 12, msg: hex_digits }, 9),
    ];
    for (src, expected, pos) in cases {
        let mut parser = Parser::new(src.as_bytes());
        let actual = parser.parse_str().map(drop);
        assert_eq!(actual.err().as_ref(), Some(expected), "parsing {src}");
        assert_eq!(parser.pos(), *pos, "position after {src}");
    }
}

#[test]
fn reads_code_units() {
    let mut parser = Parser::new(b"00aF!");
    assert_eq!(parser.parse_utf16_code_unit(), Ok(0x00af));
    assert_eq!(parser.pos(), 4);
}

#[test]
fn reads_back_the_utf16_escape_of_any_character() {
    for c in ['\0', 'A', 'é', 'キ', '\u{d7ff}', '\u{e000}', '\u{ffff}', '😀', '\u{10000}', '\u{10ffff}'] {
        let mut units = [0u16; 2];
        let escape: String = c.encode_utf16(&mut units).iter().map(|unit| format!("\\u{unit:04x}")).collect();
        let src = format!("{escape}, rest");
        let mut parser = Parser::new(&src.as_bytes()[2..]);
        assert_eq!(parser.parse_escaped_utf16_char(0), Ok(c), "reading {escape}");
        assert_eq!(parser.pos(), escape.len() - 2);
    }
}
