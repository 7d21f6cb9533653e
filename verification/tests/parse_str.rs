use djson::{ParsedStr, Parser, ParserError, ParserErrorKind};

fn parse_str(src: &str) -> Result<(), ParserError> {
    Parser::new(src.as_bytes()).parse_str().map(drop)
}

/// Parses `src` as a string: its text, whether it borrows the input, and the
/// rest of the input.
fn read(src: &[u8]) -> (String, bool, usize) {
    let mut parser = Parser::new(src);
    let parsed = parser.parse_str().expect("parses");
    let borrowed = matches!(parsed, ParsedStr::Borrowed(_));
    (parsed.as_str().to_owned(), borrowed, parser.pos())
}

#[test]
fn parse_str_deserializes() {
    let borrowed = true;
    let owned = !borrowed;

    let cases: Vec<(&[u8], &str, bool, &str)> = vec![
        (br#""""#, "", borrowed, ""),
        (br#""hello""#, "hello", borrowed, ""),
        // --- Single char escape sequences ---
        (br#""[\"] [\\] [\/]""#, "[\"] [\\] [/]", owned, ""), // ", \ and /
        (br#""\n\r\t\b\f""#, "\n\r\t\u{0008}\u{000c}", owned, ""), // whitespace, backspace & form feed
        (
            // Mix of single char escapes + alpha
            br#""\ta\"]b\\c\/d\ne\rf\tg\bh\fi\n""#,
            "\ta\"]b\\c/d\ne\rf\tg\u{0008}h\u{000c}i\n",
            owned,
            "",
        ),
    ];

    for (src, exp_value, exp_borrowed, exp_rest) in cases {
        let (value, borrowed, pos) = read(src);
        assert_eq!(value, exp_value);
        assert_eq!(borrowed, exp_borrowed);
        let src_utf8 = std::str::from_utf8(src).unwrap();
        assert_eq!(&src_utf8[pos..], exp_rest);
    }
}

#[test]
fn parse_str_expect_errors() {
    type Case = (&'static str, fn(&str) -> Result<(), ParserError>, ParserErrorKind);

    let cases_json: &[Case] = &[
        // Missing opening quote
        (r#"abc""#, parse_str, ParserErrorKind::Expected),
        (r#" abc""#, parse_str, ParserErrorKind::Expected),
        // Missing closing quote
        (r#""abc"#, parse_str, ParserErrorKind::UnterminatedString),
        (r#""abc "#, parse_str, ParserErrorKind::UnterminatedString),
    ];

    let cases_json_escapes: &[Case] = &[
        (r#""\x""#, parse_str, ParserErrorKind::InvalidEscape), // Unknown
    ];

    let cases = cases_json.iter().chain(cases_json_escapes);

    for &(source, parse, expected) in cases {
        let actual = match parse(source) {
            Ok(()) => panic!("parsing `{source}` was meant to fail"),
            Err(error) => error.kind(),
        };
        assert_eq!(actual, expected);
    }
}

#[test]
fn reads_long_strings_word_by_word() {
    // Longer than one 8-byte word, with the terminator at each lane of a word.
    for lane in 0..8 {
        let text = "a".repeat(16 + lane);
        let src = format!("\"{text}\" tail");
        let (value, borrowed, pos) = read(src.as_bytes());
        assert_eq!(value, text);
        assert!(borrowed);
        assert_eq!(&src[pos..], " tail");
    }
    let (value, borrowed, _) = read("\"0123456789abcdef\\n0123456789abcdef\"".as_bytes());
    assert_eq!(value, "0123456789abcdef\n0123456789abcdef");
    assert!(!borrowed);
}

#[test]
fn decodes_multibyte_utf8() {
    let (value, borrowed, _) = read("\"grüße, 世界 😀\"".as_bytes());
    assert_eq!(value, "grüße, 世界 😀");
    assert!(borrowed);
    let (value, borrowed, _) = read("\"grüße\\t世界 😀 and more text\"".as_bytes());
    assert_eq!(value, "grüße\t世界 😀 and more text");
    assert!(!borrowed);
}

#[test]
fn reports_each_string_error_at_its_position() {
    // Each input, the error, and where the reader stands after it.
    let cases: &[(&[u8], ParserError, usize)] = &[
        (b"\"ab\x01c\"", ParserError::ControlCharacter { pos: 3, byte: 1 }, 1),
        (b"\"ab\\n\x1fc\"", ParserError::ControlCharacter { pos: 5, byte: 0x1f }, 5),
        (b"\"ab\xffc\"", ParserError::InvalidUtf8 { pos: 3 }, 6),
        (b"\"ab\\nc\xc3\"", ParserError::InvalidUtf8 { pos: 6 }, 5),
        (b"\"abc\\", ParserError::UnterminatedString { pos: 5 }, 5),
        (b"\"abc\\q\"", ParserError::InvalidEscape { pos: 5, msg: "unknown escape sequence" }, 6),
        (b"\"abc", ParserError::UnterminatedString { pos: 4 }, 1),
        (b"abc", ParserError::Expected { pos: 0, expected: "`\"`" }, 0),
    ];
    for (src, expected, pos) in cases {
        let mut parser = Parser::new(src);
        let actual = parser.parse_str().map(|parsed| parsed.as_str().to_owned());
        assert_eq!(actual.err().as_ref(), Some(expected), "parsing {src:?}");
        assert_eq!(parser.pos(), *pos, "position after {src:?}");
    }
}

#[test]
fn decodes_utf8_of_a_chunk_reporting_the_valid_prefix() {
    assert_eq!(Parser::decode_utf8("grüße".as_bytes(), 10), Ok("grüße"));
    assert_eq!(
        Parser::decode_utf8(b"ab\xc3(", 10),
        Err(ParserError::InvalidUtf8 { pos: 12 })
    );
}

/// Writes `text` as a string the way the reader reads it back.
fn quote(text: &str) -> String {
    let mut quoted = String::from("\"");
    for c in text.chars() {
        match c {
            '"' => quoted.push_str("\\\""),
            '\\' => quoted.push_str("\\\\"),
            c if (c as u32) < 0x20 => quoted.push_str(&format!("\\u{:04x}", c as u32)),
            c => quoted.push(c),
        }
    }
    quoted.push('"');
    quoted
}

#[test]
fn reads_back_any_quoted_text() {
    for text in ["", "plain", "tab\there", "\"quoted\" \\ path", "\u{1}\u{1f}ü😀", "é"] {
        let quoted = quote(text);
        let src = format!("{quoted}, rest");
        let (read_text, borrowed, pos) = read(src.as_bytes());
        assert_eq!(read_text, text);
        assert_eq!(pos, quoted.len());
        let needs_escape = text.chars().any(|c| c == '"' || c == '\\' || (c as u32) < 0x20);
        assert_eq!(borrowed, !needs_escape, "`{text}` is borrowed exactly when nothing is escaped");
    }
}
