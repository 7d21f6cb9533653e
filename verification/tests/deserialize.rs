//! Reads typed values with the reader, the way the serde driver does: each
//! type asks the reader for the tokens it is made of.

use djson::{Deserializer, Parser, ParserError, ParserErrorKind};

/// A value that can be read from a document.
trait Read: Sized {
    fn read(parser: &mut Parser<'_>) -> Result<Self, ParserError>;
}

impl Read for u8 {
    fn read(parser: &mut Parser<'_>) -> Result<Self, ParserError> {
        parser.parse_u8()
    }
}

impl Read for u16 {
    fn read(parser: &mut Parser<'_>) -> Result<Self, ParserError> {
        parser.parse_u16()
    }
}

impl Read for u32 {
    fn read(parser: &mut Parser<'_>) -> Result<Self, ParserError> {
        parser.parse_u32()
    }
}

impl Read for u64 {
    fn read(parser: &mut Parser<'_>) -> Result<Self, ParserError> {
        parser.parse_u64()
    }
}

impl Read for bool {
    fn read(parser: &mut Parser<'_>) -> Result<Self, ParserError> {
        parser.parse_bool()
    }
}

impl Read for String {
    fn read(parser: &mut Parser<'_>) -> Result<Self, ParserError> {
        Ok(parser.parse_str()?.as_str().to_owned())
    }
}

impl<T: Read> Read for Option<T> {
    fn read(parser: &mut Parser<'_>) -> Result<Self, ParserError> {
        if parser.eat_keyword(b"null") {
            Ok(None)
        } else {
            T::read(parser).map(Some)
        }
    }
}

impl<T: Read> Read for Vec<T> {
    fn read(parser: &mut Parser<'_>) -> Result<Self, ParserError> {
        parser.expect_list_start()?;
        let mut items = Vec::new();
        let mut first = true;
        while parser.parse_list_item(first)? {
            first = false;
            items.push(T::read(parser)?);
        }
        Ok(items)
    }
}

/// Reads the entries of a map with the keys `keys`, handing each value to
/// `entry`.
fn read_map(
    parser: &mut Parser<'_>,
    keys: &'static [&'static str],
    mut entry: impl FnMut(&mut Parser<'_>, &'static str) -> Result<(), ParserError>,
) -> Result<(), ParserError> {
    parser.expect_map_start()?;
    let mut first = true;
    while parser.parse_map_entry(first)? {
        first = false;
        let key = parser.parse_known_key(keys)?;
        parser.expect_kv_separator()?;
        entry(parser, key)?;
    }
    Ok(())
}

fn missing(field: &str) -> ParserError {
    ParserError::Custom { msg: format!("missing field `{field}`") }
}

#[derive(Debug, PartialEq)]
struct ThreeKeys {
    a: u32,
    b: String,
    c: u32,
}

impl Read for ThreeKeys {
    fn read(parser: &mut Parser<'_>) -> Result<Self, ParserError> {
        let (mut a, mut b, mut c) = (None, None, None);
        read_map(parser, &["a", "b", "c"], |parser, key| {
            match key {
                "a" => a = Some(u32::read(parser)?),
                "b" => b = Some(String::read(parser)?),
                _ => c = Some(u32::read(parser)?),
            }
            Ok(())
        })?;
        Ok(ThreeKeys {
            a: a.ok_or_else(|| missing("a"))?,
            b: b.ok_or_else(|| missing("b"))?,
            c: c.ok_or_else(|| missing("c"))?,
        })
    }
}

fn three(a: u32, b: &str, c: u32) -> ThreeKeys {
    ThreeKeys { a, b: b.into(), c }
}

#[derive(Debug, PartialEq)]
struct Nested {
    a: Vec<u32>,
    b: ThreeKeys,
}

impl Read for Nested {
    fn read(parser: &mut Parser<'_>) -> Result<Self, ParserError> {
        let (mut a, mut b) = (None, None);
        read_map(parser, &["a", "b"], |parser, key| {
            match key {
                "a" => a = Some(Vec::<u32>::read(parser)?),
                _ => b = Some(ThreeKeys::read(parser)?),
            }
            Ok(())
        })?;
        Ok(Nested { a: a.ok_or_else(|| missing("a"))?, b: b.ok_or_else(|| missing("b"))? })
    }
}

fn nested(a: Vec<u32>, b: ThreeKeys) -> Nested {
    Nested { a, b }
}

#[derive(Debug, PartialEq)]
struct Partial {
    a: Option<u32>,
    b: Option<u32>,
}

impl Read for Partial {
    fn read(parser: &mut Parser<'_>) -> Result<Self, ParserError> {
        let (mut a, mut b) = (None, None);
        read_map(parser, &["a", "b"], |parser, key| {
            match key {
                "a" => a = Option::<u32>::read(parser)?,
                _ => b = Option::<u32>::read(parser)?,
            }
            Ok(())
        })?;
        Ok(Partial { a, b })
    }
}

fn partial(a: Option<u32>, b: Option<u32>) -> Partial {
    Partial { a, b }
}

/// 2 keys, one is the prefix of the other
#[derive(Debug, PartialEq)]
struct KeysPrefix {
    car: u32,
    carpet: u32,
}

impl Read for KeysPrefix {
    fn read(parser: &mut Parser<'_>) -> Result<Self, ParserError> {
        let (mut car, mut carpet) = (None, None);
        read_map(parser, &["car", "carpet"], |parser, key| {
            match key {
                "car" => car = Some(u32::read(parser)?),
                _ => carpet = Some(u32::read(parser)?),
            }
            Ok(())
        })?;
        Ok(KeysPrefix {
            car: car.ok_or_else(|| missing("car"))?,
            carpet: carpet.ok_or_else(|| missing("carpet"))?,
        })
    }
}

fn keys_prefix(car: u32, carpet: u32) -> KeysPrefix {
    KeysPrefix { car, carpet }
}

/// Reads `src` as a single `T`.
fn from_bytes<T: Read>(src: &[u8]) -> Result<T, ParserError> {
    let mut deserializer = Deserializer::new(src);
    let value = T::read(&mut deserializer.parser)?;
    deserializer.parser.expect_end()?;
    Ok(value)
}

/// Asserts that `src` reads as `expected`.
fn assert_deserializes<T: Read + PartialEq + std::fmt::Debug>(src: &str, expected: T) {
    let actual = from_bytes::<T>(src.as_bytes()).expect("parses");
    assert_eq!(actual, expected, "parsing `{src}`");
}

#[test]
fn eat_keyword() {
    assert_deserializes("null", None::<u32>);
    assert_deserializes("[null]", vec![None::<u32>]);
    assert_deserializes("[null,null]", vec![None::<u32>, None::<u32>]);
    assert_deserializes("[ null , null ]", vec![None::<u32>, None::<u32>]);
}

#[test]
fn deserializes_options() {
    assert_deserializes("1", Some(1u32));
    assert_deserializes(r#""hi""#, Some("hi".to_owned()));

    // In container
    assert_deserializes("[null, 1]", vec![None::<u32>, Some(1u32)]);
    assert_deserializes("[[null], null]", vec![Some(vec![None::<u32>]), None]); // Nested
}

#[test]
fn deserializes_bools() {
    assert_deserializes("true", true);
    assert_deserializes("false", false);
    assert_deserializes("[true, false]", vec![true, false]);
}

#[test]
fn parse_list_deserializes() {
    assert_deserializes("[]", Vec::<u32>::new()); // Empty
    assert_deserializes("[[1, 2], [], [3]]", vec![vec![1u8, 2], vec![], vec![3]]); // Nested
    assert_deserializes(r#"["a", "b\", c"]"#, vec!["a".to_owned(), "b\", c".into()]);

    // Item separators
    assert_deserializes("[1,2,3]", vec![1u32, 2, 3]);
    assert_deserializes("[ 1 2 3 ]", vec![1u32, 2, 3]);
    assert_deserializes("[1\n2\n3]", vec![1u32, 2, 3]);
    assert_deserializes("[, ,\n,\r,\t,1, ,\n,\r,\t,2, ,\n,\r,\t,3, ,\n,\r,\t,]", vec![1u32, 2, 3]);
}

#[test]
fn parse_list_expect_errors() {
    let cases = [(r#"["a""b"]"#, ParserErrorKind::MissingSeparator)];

    for (src, expected) in cases {
        let actual = match from_bytes::<Vec<String>>(src.as_bytes()) {
            Ok(_) => panic!("`{src}` was meant to fail"),
            Err(error) => error.kind(),
        };

        assert_eq!(actual, expected, "parsing `{src}`");
    }
}

#[test]
fn parse_map_deserializes() {
    assert_deserializes(
        r#"{"a": [1,2,3], "b": {"a": 1, "b": "hi", "c": 3}}"#,
        nested(vec![1, 2, 3], three(1, "hi", 3)),
    ); // Nested

    // Partial
    assert_deserializes("{}", partial(None, None));
    assert_deserializes(r#"{"a": 1, "b": 2}"#, partial(Some(1), Some(2)));
    assert_deserializes(r#"{"a": 1}"#, partial(Some(1), None));
    assert_deserializes(r#"{"b": 1}"#, partial(None, Some(1)));
    assert_deserializes(r#"{"a": null "b": null}"#, partial(None, None));

    // Entry separators
    assert_deserializes(r#"{"a": 1,"b": "hi","c": 3}"#, three(1, "hi", 3));
    assert_deserializes(r#"{"a": 1 "b": "hi" "c": 3}"#, three(1, "hi", 3));
    assert_deserializes("{\"a\": 1\n\"b\": \"hi\"\n\"c\": 3}", three(1, "hi", 3));
    assert_deserializes(
        "{, ,\n,\r,\t,\"a\": 1, ,\n,\r,\t,\"b\": \"hi\", ,\n,\r,\t,\"c\": 3, ,\n,\r,\t,}",
        three(1, "hi", 3),
    );

    // Recognizes the correct known key, even if keys share prefixes
    assert_deserializes(r#"{"car": 1, "carpet": 2}"#, keys_prefix(1, 2));
    assert_deserializes(r#"{"carpet": 2, "car": 1}"#, keys_prefix(1, 2));
}

#[test]
fn parse_map_expect_errors() {
    let cases = [
        (r#"{"a": 1"b": "hi","c": 3}"#, ParserErrorKind::MissingSeparator),
        (r#"{"x": 1, "b": 2}"#, ParserErrorKind::InvalidIdentifier),
        (r#"{"a: 1}"#, ParserErrorKind::UnterminatedString),
        ("{}", ParserErrorKind::Custom), // Missing keys
    ];

    for (src, expected) in cases {
        let actual = match from_bytes::<ThreeKeys>(src.as_bytes()) {
            Ok(_) => panic!("`{src}` was meant to fail"),
            Err(error) => error.kind(),
        };

        assert_eq!(actual, expected, "parsing `{src}`");
    }
}

#[test]
fn deserializes_u64() {
    assert_deserializes("0", 0u64);
    assert_deserializes("1", 1u64);
    assert_deserializes("007", 7u64);
    assert_deserializes("12345", 12345u64);

    // With Separators
    assert_deserializes("1_", 1u64);
    assert_deserializes("1_2", 12u64);
    assert_deserializes("1__0", 10u64);
    assert_deserializes("1_000", 1_000u64);

    // Max value
    assert_deserializes("255", u8::MAX);
    assert_deserializes("65535", u16::MAX);
    assert_deserializes("65_535", u16::MAX);
    assert_deserializes("4294967295", u32::MAX);
    assert_deserializes("4_294_967_295", u32::MAX);
    assert_deserializes("18446744073709551615", u64::MAX);
    assert_deserializes("18_446_744_073_709_551_615", u64::MAX);
}

fn parse_u64(src: &str) -> Result<(), ParserError> {
    Parser::new(src.as_bytes()).parse_u64().map(drop)
}

/// Reads `src` as `T`.
fn from_bytes_uint<T: Read>(src: &str) -> Result<(), ParserError> {
    from_bytes::<T>(src.as_bytes()).map(drop)
}

#[test]
fn parse_uint_expect_errors() {
    let cases: &[(&str, fn(&str) -> Result<(), ParserError>, ParserErrorKind)] = &[
        ("_1", parse_u64, ParserErrorKind::InvalidInt), // Leading separator
        ("__", parse_u64, ParserErrorKind::InvalidInt), // Only separators
        ("-1", parse_u64, ParserErrorKind::InvalidInt), // Negative
        ("+1", parse_u64, ParserErrorKind::InvalidInt), // Plus sign
        (" 1", parse_u64, ParserErrorKind::InvalidInt), // Leading whitespace
        //region Not a number
        ("", parse_u64, ParserErrorKind::InvalidInt),
        ("abc", parse_u64, ParserErrorKind::InvalidInt),
        (r#"["abc"]"#, parse_u64, ParserErrorKind::InvalidInt),
        //endregion Not a number
        //region Overflow
        ("256", from_bytes_uint::<u8>, ParserErrorKind::Overflow), // u8::MAX + 1
        ("65536", from_bytes_uint::<u16>, ParserErrorKind::Overflow), // u16::MAX + 1
        ("4294967296", from_bytes_uint::<u32>, ParserErrorKind::Overflow), // u32::MAX + 1
        ("18446744073709551616", from_bytes_uint::<u64>, ParserErrorKind::Overflow), // u64::MAX + 1
        //endregion Overflow
    ];

    for &(source, parse, expected) in cases {
        let actual = match parse(source) {
            Ok(()) => panic!("`{source}` was meant to fail"),
            Err(error) => error.kind(),
        };

        assert_eq!(actual, expected, "parsing `{source}`");
    }
}

#[test]
fn reports_list_and_map_errors_at_their_positions() {
    assert_eq!(
        from_bytes::<Vec<u8>>(b"1"),
        Err(ParserError::Expected { pos: 0, expected: "`[`" })
    );
    assert_eq!(from_bytes::<Vec<u8>>(b"[1 2"), Err(ParserError::Expected { pos: 4, expected: "`]`" }));
    assert_eq!(
        from_bytes::<Vec<String>>(br#"["a""b"]"#),
        Err(ParserError::MissingSeparator { pos: 4 })
    );
    assert_eq!(
        from_bytes::<ThreeKeys>(br#"{"x": 1}"#),
        Err(ParserError::InvalidIdentifier { pos: 2, found: "x".to_owned() })
    );
    assert_eq!(from_bytes::<ThreeKeys>(br#"{"a" 1}"#), Err(ParserError::Expected { pos: 5, expected: "`:`" }));
    assert_eq!(from_bytes::<u8>(b"256"), Err(ParserError::Overflow { pos: 0, ty: "u8" }));
    assert_eq!(from_bytes::<u16>(b"65536"), Err(ParserError::Overflow { pos: 0, ty: "u16" }));
    assert_eq!(from_bytes::<u32>(b"4294967296"), Err(ParserError::Overflow { pos: 0, ty: "u32" }));
    assert_eq!(
        from_bytes::<bool>(b"truth"),
        Err(ParserError::Expected { pos: 0, expected: "`true` or `false`" })
    );
}

#[test]
fn keywords_must_stand_alone() {
    assert_eq!(from_bytes::<Option<u32>>(b"null_1"), Err(ParserError::InvalidInt { pos: 0 }));
    let mut parser = Parser::new(b"nullx");
    assert!(!parser.eat_keyword(b"null"));
    assert_eq!(parser.pos(), 0);
    let mut parser = Parser::new(b"null]");
    assert!(parser.eat_keyword(b"null"));
    assert_eq!(parser.pos(), 4);
}

#[test]
fn deserializes_with_seed() {
    let arena = bumpalo::Bump::new();
    assert_eq!(arena.allocated_bytes(), 0);

    let mut deserializer = Deserializer::new(br#""hello\nworld""#);
    let parsed = deserializer.parser.parse_str().expect("seed deserializes");
    let value: &str = arena.alloc_str(parsed.as_str());

    assert_eq!(value, "hello\nworld");
    assert!(arena.allocated_bytes() > 0);
}

#[test]
fn reports_an_unknown_key_with_its_text() {
    let mut parser = Parser::new(br#""carp": 1"#);
    assert_eq!(
        parser.parse_known_key(&["car", "carpet"]),
        Err(ParserError::InvalidIdentifier { pos: 1, found: "carp".to_string() })
    );
    let mut parser = Parser::new(b"\"ca\xffr\": 1");
    assert_eq!(
        parser.parse_known_key(&["car"]),
        Err(ParserError::InvalidIdentifier { pos: 1, found: "ca\u{fffd}r".to_string() })
    );
}

#[test]
fn recognizes_each_known_key_whatever_follows() {
    for (src, expected) in [(&br#""car": 1"#[..], "car"), (&br#""carpet"}"#[..], "carpet")] {
        let mut parser = Parser::new(src);
        assert_eq!(parser.parse_known_key(&["car", "carpet"]), Ok(expected));
        assert_eq!(src[parser.pos() - 1], b'"');
    }
}

#[test]
fn rejects_bytes_after_the_document() {
    assert_eq!(from_bytes::<u32>(b"12 \n"), Ok(12));
    assert_eq!(
        from_bytes::<u32>(b"12 3"),
        Err(ParserError::Expected { pos: 3, expected: "end of input" })
    );
    assert_eq!(
        from_bytes::<Vec<u32>>(b"[1, 2]]"),
        Err(ParserError::Expected { pos: 6, expected: "end of input" })
    );
    let mut parser = Parser::new(b"true \t\r\n");
    assert_eq!(parser.parse_bool(), Ok(true));
    assert_eq!(parser.expect_end(), Ok(()));
    assert_eq!(parser.pos(), 8);
}
