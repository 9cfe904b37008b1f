use bfcrunch::util::{
    abs_diff, add_byte, digit_to_value, hex_pair_to_u8, negate_byte, to_iso_8859_1_bytes,
    unescape_regex_like, PrepError,
};

#[test]
fn plain_text_passes_through() {
    assert_eq!(unescape_regex_like("Hello").unwrap(), "Hello");
    assert_eq!(unescape_regex_like("").unwrap(), "");
}

#[test]
fn simple_escapes_decode() {
    assert_eq!(
        unescape_regex_like("\\n\\r\\t\\f\\v\\a\\b\\0").unwrap(),
        "\n\r\t\u{c}\u{b}\u{7}\u{8}\0"
    );
}

#[test]
fn unknown_escape_maps_to_itself() {
    assert_eq!(unescape_regex_like("\\q\\\\\\[").unwrap(), "q\\[");
}

#[test]
fn dangling_backslash_is_literal() {
    assert_eq!(unescape_regex_like("ab\\").unwrap(), "ab\\");
}

#[test]
fn hex_escape_decodes() {
    assert_eq!(unescape_regex_like("\\x41").unwrap(), "A");
    assert_eq!(unescape_regex_like("\\xff").unwrap(), "\u{ff}");
    assert_eq!(unescape_regex_like("\\x0a!").unwrap(), "\n!");
}

#[test]
fn hex_escape_errors() {
    assert_eq!(
        unescape_regex_like("\\x4").unwrap_err(),
        PrepError::MissingEscapeDigits
    );
    assert_eq!(
        unescape_regex_like("\\x").unwrap_err(),
        PrepError::MissingEscapeDigits
    );
    assert_eq!(
        unescape_regex_like("\\x4z").unwrap_err(),
        PrepError::InvalidHexDigit
    );
}

#[test]
fn unicode_escapes_decode() {
    assert_eq!(unescape_regex_like("\\u0041").unwrap(), "A");
    assert_eq!(unescape_regex_like("\\u00ff").unwrap(), "\u{ff}");
    assert_eq!(unescape_regex_like("\\U00000041").unwrap(), "A");
    assert_eq!(unescape_regex_like("\\u2603").unwrap(), "\u{2603}");
}

#[test]
fn unicode_escape_errors() {
    assert_eq!(
        unescape_regex_like("\\u123").unwrap_err(),
        PrepError::MissingEscapeDigits
    );
    assert_eq!(
        unescape_regex_like("\\u12g4").unwrap_err(),
        PrepError::InvalidHexDigit
    );
    assert_eq!(
        unescape_regex_like("\\ud800").unwrap_err(),
        PrepError::InvalidCodepoint
    );
    assert_eq!(
        unescape_regex_like("\\UFFFFFFFF").unwrap_err(),
        PrepError::InvalidCodepoint
    );
}

#[test]
fn control_escape_decodes() {
    assert_eq!(unescape_regex_like("\\cA").unwrap(), "\u{1}");
    assert_eq!(unescape_regex_like("\\cJ").unwrap(), "\n");
    assert_eq!(
        unescape_regex_like("\\c").unwrap_err(),
        PrepError::MissingControlChar
    );
}

#[test]
fn iso_8859_1_round_trip_byte_values() {
    // 0xFF is representable in ISO-8859-1: the preparation step succeeds
    let decoded = unescape_regex_like("\\xFF").unwrap();
    let bytes = to_iso_8859_1_bytes(&decoded).unwrap();
    assert_eq!(bytes, vec![0xFFu8]);
}

#[test]
fn iso_8859_1_rejects_wide_characters() {
    // U+0100 is the first code point past ISO-8859-1
    let decoded = unescape_regex_like("\\u0100").unwrap();
    assert_eq!(
        to_iso_8859_1_bytes(&decoded).unwrap_err(),
        PrepError::Unrepresentable
    );
}

#[test]
fn iso_8859_1_encodes_ascii() {
    assert_eq!(to_iso_8859_1_bytes("AB").unwrap(), vec![0x41u8, 0x42u8]);
    assert_eq!(to_iso_8859_1_bytes("").unwrap(), Vec::<u8>::new());
}

#[test]
fn hex_digit_values() {
    assert_eq!(digit_to_value('0').unwrap(), 0);
    assert_eq!(digit_to_value('9').unwrap(), 9);
    assert_eq!(digit_to_value('a').unwrap(), 10);
    assert_eq!(digit_to_value('F').unwrap(), 15);
    assert_eq!(digit_to_value('g').unwrap_err(), PrepError::InvalidHexDigit);
    assert_eq!(hex_pair_to_u8('4', '1').unwrap(), 0x41);
    assert_eq!(hex_pair_to_u8('f', 'f').unwrap(), 0xFF);
    assert!(hex_pair_to_u8('z', '0').is_err());
}

#[test]
fn byte_arithmetic() {
    assert_eq!(abs_diff(10, 3), 7);
    assert_eq!(abs_diff(3, 10), 7);
    assert_eq!(abs_diff(0, 255), 255);
    assert_eq!(add_byte(250, 10), 4);
    assert_eq!(add_byte(5, -10), 251);
    assert_eq!(add_byte(5, 256), 5);
    assert_eq!(add_byte(0, -1), 255);
    assert_eq!(negate_byte(0), 0);
    assert_eq!(negate_byte(1), 255);
    assert_eq!(negate_byte(128), 128);
}
