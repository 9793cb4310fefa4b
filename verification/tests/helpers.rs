use oxc_toml::literal::{bare_key_text, check_underscores, special_float_word, zero_padded};
use oxc_toml::scan::{
    all_in_class, any_in_class, count_run, holds_three, is_digit, is_hex_digit, is_ident_char,
    is_ident_with_glob_char, is_whitespace, ByteClass,
};
use oxc_toml::text::{byte_len, str_slice};
use oxc_toml::util::escape::utf8_width;

#[test]
fn byte_classes() {
    assert!(is_whitespace(b' ') && is_whitespace(b'\t') && !is_whitespace(b'\n'));
    assert!(is_digit(b'0') && is_digit(b'9') && !is_digit(b'a') && !is_digit(b'/'));
    assert!(is_hex_digit(b'f') && is_hex_digit(b'A') && !is_hex_digit(b'g') && !is_hex_digit(b'_'));
    assert!(is_ident_char(b'a') && is_ident_char(b'Z') && is_ident_char(b'_') && is_ident_char(b'-'));
    assert!(!is_ident_char(b'*') && !is_ident_char(b'.') && !is_ident_char(0xC3));
    assert!(is_ident_with_glob_char(b'*') && is_ident_with_glob_char(b'?'));
    assert!(is_ident_with_glob_char(b'x') && !is_ident_with_glob_char(b'.'));
    assert!(ByteClass::LineFeed.test(b'\n') && !ByteClass::LineFeed.test(b'\r'));
    assert!(ByteClass::NotLineBreak.test(b' ') && !ByteClass::NotLineBreak.test(b'\r'));
    assert!(ByteClass::DecimalBody.test(b'_') && !ByteClass::Digit.test(b'_'));
    assert!(ByteClass::HexBody.test(b'_') && !ByteClass::HexDigit.test(b'_'));
    assert!(ByteClass::OctalBody.test(b'7') && !ByteClass::OctalBody.test(b'8'));
    assert!(ByteClass::OctalDigit.test(b'0') && !ByteClass::OctalDigit.test(b'_'));
    assert!(ByteClass::BinaryBody.test(b'1') && !ByteClass::BinaryBody.test(b'2'));
    assert!(ByteClass::BinaryDigit.test(b'0') && !ByteClass::BinaryDigit.test(b'_'));
    assert!(ByteClass::Quote.test(b'"') && !ByteClass::Quote.test(b'\''));
    assert!(ByteClass::Apostrophe.test(b'\'') && !ByteClass::Apostrophe.test(b'"'));
    assert!(ByteClass::Ident.test(b'-') && ByteClass::IdentGlob.test(b'?'));
    assert!(ByteClass::Whitespace.test(b'\t'));
}

#[test]
fn runs_stop_at_the_first_byte_outside_the_class() {
    assert_eq!(count_run(b"abc def", 0, ByteClass::Ident), 3);
    assert_eq!(count_run(b"abc def", 3, ByteClass::Ident), 0);
    assert_eq!(count_run(b"abc def", 4, ByteClass::Ident), 3);
    assert_eq!(count_run(b"abc def", 7, ByteClass::Ident), 0);
    assert_eq!(count_run(b"", 0, ByteClass::Whitespace), 0);
    assert_eq!(count_run(b"  \t x", 0, ByteClass::Whitespace), 4);
    assert!(all_in_class(b"12ab", 0, 2, ByteClass::Digit));
    assert!(!all_in_class(b"12ab", 0, 3, ByteClass::Digit));
    assert!(all_in_class(b"12ab", 2, 2, ByteClass::Digit));
    assert!(all_in_class(b"12ab", 0, 4, ByteClass::HexDigit));
    assert!(any_in_class(b"__1_", 0, 4, ByteClass::Digit));
    assert!(!any_in_class(b"__1_", 0, 2, ByteClass::Digit));
    assert!(!any_in_class(b"__1_", 3, 4, ByteClass::Digit));
    assert!(!any_in_class(b"1", 0, 0, ByteClass::Digit));
}

#[test]
fn three_bytes_at_an_offset() {
    assert!(holds_three(b"xnan", 1, b'n', b'a', b'n'));
    assert!(!holds_three(b"xnan", 0, b'n', b'a', b'n'));
    assert!(!holds_three(b"xna", 1, b'n', b'a', b'n'));
    assert!(!holds_three(b"", 0, b'n', b'a', b'n'));
    assert!(!holds_three(b"nan", 4, b'n', b'a', b'n'));
}

#[test]
fn underscores_must_stand_between_digits() {
    assert!(check_underscores(b"1_000", 0, ByteClass::Digit));
    assert!(check_underscores(b"1000", 0, ByteClass::Digit));
    assert!(!check_underscores(b"_1", 0, ByteClass::Digit));
    assert!(!check_underscores(b"1_", 0, ByteClass::Digit));
    assert!(!check_underscores(b"1__0", 0, ByteClass::Digit));
    assert!(!check_underscores(b"+_1", 0, ByteClass::Digit));
    assert!(!check_underscores(b"1_.5", 0, ByteClass::Digit));
    assert!(check_underscores(b"0xde_ad", 2, ByteClass::HexDigit));
    assert!(!check_underscores(b"0x_dead", 2, ByteClass::HexDigit));
    assert!(!check_underscores(b"0o7_8", 2, ByteClass::OctalDigit));
    assert!(check_underscores(b"0b1_0", 2, ByteClass::BinaryDigit));
    assert!(check_underscores(b"_", 1, ByteClass::Digit));
}

#[test]
fn needless_zeros() {
    assert!(zero_padded(b"01"));
    assert!(zero_padded(b"+00"));
    assert!(zero_padded(b"-0_1"));
    assert!(zero_padded(b"00.5"));
    assert!(!zero_padded(b"0"));
    assert!(!zero_padded(b"-0"));
    assert!(!zero_padded(b"0.5"));
    assert!(!zero_padded(b"0e5"));
    assert!(!zero_padded(b"10"));
    assert!(!zero_padded(b""));
    assert!(!zero_padded(b"+"));
}

#[test]
fn texts_that_read_as_bare_keys() {
    assert!(bare_key_text(b"abc"));
    assert!(bare_key_text(b"1"));
    assert!(bare_key_text(b"1.5"));
    assert!(bare_key_text(b"1979-05-27"));
    assert!(bare_key_text(b"a.b.c"));
    assert!(!bare_key_text(b""));
    assert!(!bare_key_text(b"+1"));
    assert!(!bare_key_text(b".5"));
    assert!(!bare_key_text(b"5."));
    assert!(!bare_key_text(b"1..5"));
    assert!(!bare_key_text(b"1e+5"));
    assert!(!bare_key_text(b"07:32:00"));
}

#[test]
fn special_float_words() {
    assert!(special_float_word(b"nan"));
    assert!(special_float_word(b"inf"));
    assert!(!special_float_word(b"na"));
    assert!(!special_float_word(b"nano"));
    assert!(!special_float_word(b"Inf"));
    assert!(!special_float_word(b""));
}

#[test]
fn character_widths() {
    assert_eq!(utf8_width(b'a'), 1);
    assert_eq!(utf8_width(0x7F), 1);
    assert_eq!(utf8_width("é".as_bytes()[0]), 2);
    assert_eq!(utf8_width("€".as_bytes()[0]), 3);
    assert_eq!(utf8_width("𝄞".as_bytes()[0]), 4);
}

#[test]
fn slices_between_boundaries() {
    let text = "aé€𝄞b";
    assert_eq!(byte_len(text), 11);
    assert_eq!(byte_len(""), 0);
    assert_eq!(str_slice(text, 0, 0), "");
    assert_eq!(str_slice(text, 0, 1), "a");
    assert_eq!(str_slice(text, 1, 3), "é");
    assert_eq!(str_slice(text, 3, 10), "€𝄞");
    assert_eq!(str_slice(text, 10, 11), "b");
    assert_eq!(str_slice(text, 11, 11), "");
    assert_eq!(str_slice(text, 0, 11), text);
}
