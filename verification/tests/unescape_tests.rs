use unic_lexer::unescape::{byte_from_char, unescape_byte, unescape_byte_str, unescape_char,
    unescape_raw_byte_str, unescape_raw_str, unescape_str, EscapeError};

fn check_char_bad(literal_text: &str, expected_error: EscapeError) {
    let actual_result = unescape_char(literal_text).map_err(|(_offset, err)| err);
    assert_eq!(actual_result, Err(expected_error));
}

#[test]
fn test_unescape_char_bad() {
    check_char_bad("", EscapeError::ZeroChars);
    check_char_bad(r"\", EscapeError::LoneSlash);

    check_char_bad("\n", EscapeError::EscapeOnlyChar);
    check_char_bad("\t", EscapeError::EscapeOnlyChar);
    check_char_bad("'", EscapeError::EscapeOnlyChar);
    check_char_bad("\r", EscapeError::BareCarriageReturn);

    check_char_bad("spam", EscapeError::MoreThanOneChar);
    check_char_bad(r"\x0ff", EscapeError::MoreThanOneChar);
    check_char_bad(r#"\"a"#, EscapeError::MoreThanOneChar);
    check_char_bad(r"\na", EscapeError::MoreThanOneChar);
    check_char_bad(r"\ra", EscapeError::MoreThanOneChar);
    check_char_bad(r"\ta", EscapeError::MoreThanOneChar);
    check_char_bad(r"\\a", EscapeError::MoreThanOneChar);
    check_char_bad(r"\'a", EscapeError::MoreThanOneChar);
    check_char_bad(r"\0a", EscapeError::MoreThanOneChar);
    check_char_bad(r"\u{0}x", EscapeError::MoreThanOneChar);
    check_char_bad(r"\u{1F63b}}", EscapeError::MoreThanOneChar);

    check_char_bad(r"\v", EscapeError::InvalidEscape);
    check_char_bad("\\\u{1f4a9}", EscapeError::InvalidEscape);
    check_char_bad("\\\u{e2}\u{2014}", EscapeError::InvalidEscape);
    check_char_bad("\\\r", EscapeError::InvalidEscape);

    check_char_bad(r"\x", EscapeError::TooShortHexEscape);
    check_char_bad(r"\x0", EscapeError::TooShortHexEscape);
    check_char_bad(r"\xf", EscapeError::TooShortHexEscape);
    check_char_bad(r"\xa", EscapeError::TooShortHexEscape);
    check_char_bad(r"\xx", EscapeError::InvalidCharInHexEscape);
    check_char_bad("\\x\u{44b}", EscapeError::InvalidCharInHexEscape);
    check_char_bad("\\x\u{1f980}", EscapeError::InvalidCharInHexEscape);
    check_char_bad(r"\xtt", EscapeError::InvalidCharInHexEscape);
    check_char_bad(r"\xff", EscapeError::OutOfRangeHexEscape);
    check_char_bad(r"\xFF", EscapeError::OutOfRangeHexEscape);
    check_char_bad(r"\x80", EscapeError::OutOfRangeHexEscape);

    check_char_bad(r"\u", EscapeError::NoBraceInUnicodeEscape);
    check_char_bad(r"\u[0123]", EscapeError::NoBraceInUnicodeEscape);
    check_char_bad(r"\u{0x}", EscapeError::InvalidCharInUnicodeEscape);
    check_char_bad(r"\u{", EscapeError::UnclosedUnicodeEscape);
    check_char_bad(r"\u{0000", EscapeError::UnclosedUnicodeEscape);
    check_char_bad(r"\u{}", EscapeError::EmptyUnicodeEscape);
    check_char_bad(r"\u{_0000}", EscapeError::LeadingUnderscoreUnicodeEscape);
    check_char_bad(r"\u{0000000}", EscapeError::OverlongUnicodeEscape);
    check_char_bad(r"\u{FFFFFF}", EscapeError::OutOfRangeUnicodeEscape);
    check_char_bad(r"\u{ffffff}", EscapeError::OutOfRangeUnicodeEscape);
    check_char_bad(r"\u{ffffff}", EscapeError::OutOfRangeUnicodeEscape);

    check_char_bad(r"\u{DC00}", EscapeError::LoneSurrogateUnicodeEscape);
    check_char_bad(r"\u{DDDD}", EscapeError::LoneSurrogateUnicodeEscape);
    check_char_bad(r"\u{DFFF}", EscapeError::LoneSurrogateUnicodeEscape);

    check_char_bad(r"\u{D800}", EscapeError::LoneSurrogateUnicodeEscape);
    check_char_bad(r"\u{DAAA}", EscapeError::LoneSurrogateUnicodeEscape);
    check_char_bad(r"\u{DBFF}", EscapeError::LoneSurrogateUnicodeEscape);
}

fn check_char_good(literal_text: &str, expected_char: char) {
    let actual_result = unescape_char(literal_text);
    assert_eq!(actual_result, Ok(expected_char));
}

#[test]
fn test_unescape_char_good() {
    check_char_good("a", 'a');
    check_char_good("\u{44b}", '\u{44b}');
    check_char_good("\u{1f980}", '\u{1f980}');

    check_char_good(r#"\""#, '"');
    check_char_good(r"\n", '\n');
    check_char_good(r"\r", '\r');
    check_char_good(r"\t", '\t');
    check_char_good(r"\\", '\\');
    check_char_good(r"\'", '\'');
    check_char_good(r"\0", '\0');

    check_char_good(r"\x00", '\0');
    check_char_good(r"\x5a", 'Z');
    check_char_good(r"\x5A", 'Z');
    check_char_good(r"\x7f", 127 as char);

    check_char_good(r"\u{0}", '\0');
    check_char_good(r"\u{000000}", '\0');
    check_char_good(r"\u{41}", 'A');
    check_char_good(r"\u{0041}", 'A');
    check_char_good(r"\u{00_41}", 'A');
    check_char_good(r"\u{4__1__}", 'A');
    check_char_good(r"\u{1F63b}", '\u{1f63b}');
}

fn check_str_good(literal_text: &str, expected: &str) {
    let mut buf = Ok(String::with_capacity(literal_text.len()));
    for (start, end, c) in unescape_str(literal_text) {
        if let Ok(b) = &mut buf {
            match c {
                Ok(c) => b.push(c),
                Err(e) => buf = Err(((start, end), e)),
            }
        }
    }
    let buf = buf.as_ref().map(|it| it.as_str());
    assert_eq!(buf, Ok(expected))
}

#[test]
fn test_unescape_str_good() {
    check_str_good("foo", "foo");
    check_str_good("", "");
    check_str_good(" \t\n", " \t\n");

    check_str_good("hello \\\n     world", "hello world");
    check_str_good("thread's", "thread's")
}

fn check_byte_bad(literal_text: &str, expected_error: EscapeError) {
    let actual_result = unescape_byte(literal_text).map_err(|(_offset, err)| err);
    assert_eq!(actual_result, Err(expected_error));
}

#[test]
fn test_unescape_byte_bad() {
    check_byte_bad("", EscapeError::ZeroChars);
    check_byte_bad(r"\", EscapeError::LoneSlash);

    check_byte_bad("\n", EscapeError::EscapeOnlyChar);
    check_byte_bad("\t", EscapeError::EscapeOnlyChar);
    check_byte_bad("'", EscapeError::EscapeOnlyChar);
    check_byte_bad("\r", EscapeError::BareCarriageReturn);

    check_byte_bad("spam", EscapeError::MoreThanOneChar);
    check_byte_bad(r"\x0ff", EscapeError::MoreThanOneChar);
    check_byte_bad(r#"\"a"#, EscapeError::MoreThanOneChar);
    check_byte_bad(r"\na", EscapeError::MoreThanOneChar);
    check_byte_bad(r"\ra", EscapeError::MoreThanOneChar);
    check_byte_bad(r"\ta", EscapeError::MoreThanOneChar);
    check_byte_bad(r"\\a", EscapeError::MoreThanOneChar);
    check_byte_bad(r"\'a", EscapeError::MoreThanOneChar);
    check_byte_bad(r"\0a", EscapeError::MoreThanOneChar);

    check_byte_bad(r"\v", EscapeError::InvalidEscape);
    check_byte_bad("\\\u{1f4a9}", EscapeError::InvalidEscape);
    check_byte_bad("\\\u{e2}\u{2014}", EscapeError::InvalidEscape);

    check_byte_bad(r"\x", EscapeError::TooShortHexEscape);
    check_byte_bad(r"\x0", EscapeError::TooShortHexEscape);
    check_byte_bad(r"\xa", EscapeError::TooShortHexEscape);
    check_byte_bad(r"\xf", EscapeError::TooShortHexEscape);
    check_byte_bad(r"\xx", EscapeError::InvalidCharInHexEscape);
    check_byte_bad("\\x\u{44b}", EscapeError::InvalidCharInHexEscape);
    check_byte_bad("\\x\u{1f980}", EscapeError::InvalidCharInHexEscape);
    check_byte_bad(r"\xtt", EscapeError::InvalidCharInHexEscape);

    check_byte_bad(r"\u", EscapeError::NoBraceInUnicodeEscape);
    check_byte_bad(r"\u[0123]", EscapeError::NoBraceInUnicodeEscape);
    check_byte_bad(r"\u{0x}", EscapeError::InvalidCharInUnicodeEscape);
    check_byte_bad(r"\u{", EscapeError::UnclosedUnicodeEscape);
    check_byte_bad(r"\u{0000", EscapeError::UnclosedUnicodeEscape);
    check_byte_bad(r"\u{}", EscapeError::EmptyUnicodeEscape);
    check_byte_bad(r"\u{_0000}", EscapeError::LeadingUnderscoreUnicodeEscape);
    check_byte_bad(r"\u{0000000}", EscapeError::OverlongUnicodeEscape);

    check_byte_bad("\u{44b}", EscapeError::NonAsciiCharInByte);
    check_byte_bad("\u{1f980}", EscapeError::NonAsciiCharInByte);

    check_byte_bad(r"\u{0}", EscapeError::UnicodeEscapeInByte);
    check_byte_bad(r"\u{000000}", EscapeError::UnicodeEscapeInByte);
    check_byte_bad(r"\u{41}", EscapeError::UnicodeEscapeInByte);
    check_byte_bad(r"\u{0041}", EscapeError::UnicodeEscapeInByte);
    check_byte_bad(r"\u{00_41}", EscapeError::UnicodeEscapeInByte);
    check_byte_bad(r"\u{4__1__}", EscapeError::UnicodeEscapeInByte);
    check_byte_bad(r"\u{1F63b}", EscapeError::UnicodeEscapeInByte);
    check_byte_bad(r"\u{0}x", EscapeError::UnicodeEscapeInByte);
    check_byte_bad(r"\u{1F63b}}", EscapeError::UnicodeEscapeInByte);
    check_byte_bad(r"\u{FFFFFF}", EscapeError::UnicodeEscapeInByte);
    check_byte_bad(r"\u{ffffff}", EscapeError::UnicodeEscapeInByte);
    check_byte_bad(r"\u{ffffff}", EscapeError::UnicodeEscapeInByte);
    check_byte_bad(r"\u{DC00}", EscapeError::UnicodeEscapeInByte);
    check_byte_bad(r"\u{DDDD}", EscapeError::UnicodeEscapeInByte);
    check_byte_bad(r"\u{DFFF}", EscapeError::UnicodeEscapeInByte);
    check_byte_bad(r"\u{D800}", EscapeError::UnicodeEscapeInByte);
    check_byte_bad(r"\u{DAAA}", EscapeError::UnicodeEscapeInByte);
    check_byte_bad(r"\u{DBFF}", EscapeError::UnicodeEscapeInByte);
}

fn check_byte_good(literal_text: &str, expected_byte: u8) {
    let actual_result = unescape_byte(literal_text);
    assert_eq!(actual_result, Ok(expected_byte));
}

#[test]
fn test_unescape_byte_good() {
    check_byte_good("a", b'a');

    check_byte_good(r#"\""#, b'"');
    check_byte_good(r"\n", b'\n');
    check_byte_good(r"\r", b'\r');
    check_byte_good(r"\t", b'\t');
    check_byte_good(r"\\", b'\\');
    check_byte_good(r"\'", b'\'');
    check_byte_good(r"\0", b'\0');

    check_byte_good(r"\x00", b'\0');
    check_byte_good(r"\x5a", b'Z');
    check_byte_good(r"\x5A", b'Z');
    check_byte_good(r"\x7f", 127);
    check_byte_good(r"\x80", 128);
    check_byte_good(r"\xff", 255);
    check_byte_good(r"\xFF", 255);
}

fn check_byte_str_good(literal_text: &str, expected: &[u8]) {
    let mut buf = Ok(Vec::with_capacity(literal_text.len()));
    for (start, end, c) in unescape_byte_str(literal_text) {
        if let Ok(b) = &mut buf {
            match c {
                Ok(c) => b.push(c),
                Err(e) => buf = Err(((start, end), e)),
            }
        }
    }
    let buf = buf.as_ref().map(|it| it.as_slice());
    assert_eq!(buf, Ok(expected))
}

#[test]
fn test_unescape_byte_str_good() {
    check_byte_str_good("foo", b"foo");
    check_byte_str_good("", b"");
    check_byte_str_good(" \t\n", b" \t\n");

    check_byte_str_good("hello \\\n     world", b"hello world");
    check_byte_str_good("thread's", b"thread's")
}

fn check_raw_str_units(literal: &str, expected: &[(usize, usize, Result<char, EscapeError>)]) {
    let unescaped = unescape_raw_str(literal);
    assert_eq!(unescaped, expected);
}

#[test]
fn test_unescape_raw_str() {
    check_raw_str_units("\r", &[(0, 1, Err(EscapeError::BareCarriageReturnInRawString))]);
    check_raw_str_units(
        "\rx",
        &[(0, 1, Err(EscapeError::BareCarriageReturnInRawString)), (1, 2, Ok('x'))],
    );
}

fn check_raw_byte_str_units(literal: &str, expected: &[(usize, usize, Result<u8, EscapeError>)]) {
    let unescaped = unescape_raw_byte_str(literal);
    assert_eq!(unescaped, expected);
}

#[test]
fn test_unescape_raw_byte_str() {
    check_raw_byte_str_units("\r", &[(0, 1, Err(EscapeError::BareCarriageReturnInRawString))]);
    check_raw_byte_str_units(
        "\u{1f980}",
        &[(0, 4, Err(EscapeError::NonAsciiCharInByteString))],
    );
    check_raw_byte_str_units(
        "\u{1f980}a",
        &[(0, 4, Err(EscapeError::NonAsciiCharInByteString)), (4, 5, Ok(byte_from_char('a')))],
    );
}

#[test]
fn test_unescape_byte_str_xff() {
    // The hex range check is relaxed in byte mode.
    let units = unescape_byte_str("\\xff");
    assert_eq!(units, vec![(0, 4, Ok(255u8))]);
}

#[test]
fn test_raw_str_round_trip() {
    // A raw body without carriage returns decodes to exactly itself.
    let body = "abc \u{1f980} def";
    let mut decoded = String::new();
    for (_s, _e, c) in unescape_raw_str(body) {
        decoded.push(c.unwrap());
    }
    assert_eq!(decoded, body);
}

#[test]
fn test_unescape_str_error_offsets() {
    // Errors do not stop the decode: every unit is reported with its range.
    let units = unescape_str("a\rb");
    assert_eq!(
        units,
        vec![
            (0, 1, Ok('a')),
            (1, 2, Err(EscapeError::BareCarriageReturn)),
            (2, 3, Ok('b')),
        ]
    );
}
