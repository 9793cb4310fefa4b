use oxc_toml::lexer::{Lexer, LexerToken};
use oxc_toml::tree::text_range;
use oxc_toml::util::allowed_chars;
use oxc_toml::util::escape::{check_escape, names_scalar_value, Escape};
use oxc_toml::util::overlaps;

#[test]
fn valid_escapes_pass() {
    assert_eq!(check_escape(""), Ok(()));
    assert_eq!(check_escape("plain text é €"), Ok(()));
    assert_eq!(check_escape("\\b\\t\\n\\f\\r\\\"\\\\"), Ok(()));
    assert_eq!(check_escape("\\u00E9 \\U0001F600"), Ok(()));
    assert_eq!(check_escape("a \\  \t\n b"), Ok(()));
    assert_eq!(check_escape("a \\\r\n b"), Ok(()));
}

#[test]
fn check_escape_reports_both_invalid_escapes() {
    assert_eq!(check_escape("a\\qb\\wc"), Err(vec![1, 4]));
}

#[test]
fn check_escape_reports_every_invalid_escape() {
    assert_eq!(check_escape("\\x\\n\\y\\uD800\\z"), Err(vec![0, 4, 6, 12]));
}

#[test]
fn unknown_escape_takes_a_whole_character() {
    assert_eq!(check_escape("\\é\\q"), Err(vec![0, 3]));
    assert_eq!(Escape::lex("\\é"), Some((Escape::Unknown, 3)));
    assert_eq!(Escape::lex("\\𝄞"), Some((Escape::Unknown, 5)));
    assert_eq!(Escape::lex("\\q"), Some((Escape::Unknown, 2)));
}

#[test]
fn unicode_escapes_must_name_a_scalar_value() {
    assert_eq!(check_escape("\\uD7FF"), Ok(()));
    assert_eq!(check_escape("\\uD800"), Err(vec![0]));
    assert_eq!(check_escape("\\uDFFF"), Err(vec![0]));
    assert_eq!(check_escape("\\uE000"), Ok(()));
    assert_eq!(check_escape("\\U0010FFFF"), Ok(()));
    assert_eq!(check_escape("\\U00110000"), Err(vec![0]));
    assert_eq!(check_escape("\\UFFFFFFFF"), Err(vec![0]));
    assert_eq!(check_escape("\\U0000D800"), Err(vec![0]));
    assert_eq!(check_escape("\\u00_1"), Err(vec![0]));
    assert_eq!(check_escape("\\u12"), Err(vec![0]));
    assert_eq!(check_escape("\\u12zz"), Err(vec![0]));
}

#[test]
fn names_scalar_value_reads_hex_digits() {
    assert!(names_scalar_value(b"\\u00e9"));
    assert!(names_scalar_value(b"\\U0001f600"));
    assert!(!names_scalar_value(b"\\udabc"));
    assert!(!names_scalar_value(b"\\u00g9"));
    assert!(!names_scalar_value(b"\\U00200000"));
}

#[test]
fn escape_kinds() {
    assert_eq!(Escape::lex("\\b"), Some((Escape::Backspace, 2)));
    assert_eq!(Escape::lex("\\t"), Some((Escape::Tab, 2)));
    assert_eq!(Escape::lex("\\n"), Some((Escape::LineFeed, 2)));
    assert_eq!(Escape::lex("\\f"), Some((Escape::FormFeed, 2)));
    assert_eq!(Escape::lex("\\r"), Some((Escape::CarriageReturn, 2)));
    assert_eq!(Escape::lex("\\\""), Some((Escape::Quote, 2)));
    assert_eq!(Escape::lex("\\\\"), Some((Escape::Backslash, 2)));
    assert_eq!(Escape::lex("\\ \t\nx"), Some((Escape::Newline, 4)));
    assert_eq!(Escape::lex("\\\r\nx"), Some((Escape::Newline, 3)));
    assert_eq!(Escape::lex("\\u0041x"), Some((Escape::Unicode, 6)));
    assert_eq!(Escape::lex("\\u00_1x"), Some((Escape::Unicode, 6)));
    assert_eq!(Escape::lex("\\U00000041"), Some((Escape::UnicodeLarge, 10)));
    assert_eq!(Escape::lex("\\U0041"), Some((Escape::Unknown, 2)));
    assert_eq!(Escape::lex("\\ x"), Some((Escape::Unknown, 2)));
    assert_eq!(Escape::lex("\\"), Some((Escape::UnEscaped, 1)));
    assert_eq!(Escape::lex("a"), Some((Escape::UnEscaped, 1)));
    assert_eq!(Escape::lex("é"), Some((Escape::UnEscaped, 2)));
    assert_eq!(Escape::lex("€"), Some((Escape::UnEscaped, 3)));
    assert_eq!(Escape::lex("𝄞"), Some((Escape::UnEscaped, 4)));
    assert_eq!(Escape::lex(""), None);
}

#[test]
fn escape_lexer_walks_whole_characters() {
    let mut lexer: Lexer<Escape> = Lexer::new("a\\né");
    assert_eq!(lexer.next(), Some(Ok(Escape::UnEscaped)));
    assert_eq!(lexer.next(), Some(Ok(Escape::LineFeed)));
    assert_eq!(lexer.slice(), "\\n");
    assert_eq!(lexer.next(), Some(Ok(Escape::UnEscaped)));
    assert_eq!(lexer.slice(), "é");
    assert_eq!(lexer.next(), None);
}

#[test]
fn single_line_texts_allow_tab_only() {
    assert_eq!(allowed_chars::comment("# fine\tcomment é"), Ok(()));
    assert_eq!(allowed_chars::comment("a\u{0}b\u{7f}c\nd"), Err(vec![1, 3, 5]));
    assert_eq!(allowed_chars::string("a\rb\u{1f}"), Err(vec![1, 3]));
    assert_eq!(allowed_chars::string("tab\tok"), Ok(()));
    assert_eq!(allowed_chars::string_literal("a\nb"), Err(vec![1]));
    assert_eq!(allowed_chars::string_literal(""), Ok(()));
}

#[test]
fn multi_line_texts_allow_line_breaks() {
    assert_eq!(allowed_chars::multi_line_string("a\nb\r\nc\td"), Ok(()));
    assert_eq!(allowed_chars::multi_line_string("a\u{8}\nb\u{7f}"), Err(vec![1, 4]));
    assert_eq!(allowed_chars::multi_line_string_literal("a\nb\r\nc"), Ok(()));
    assert_eq!(allowed_chars::multi_line_string_literal("\u{b}\n\u{c}"), Err(vec![0, 2]));
}

#[test]
fn overlapping_spans() {
    assert!(overlaps(text_range(0, 10), text_range(5, 15)));
    assert!(overlaps(text_range(5, 15), text_range(0, 10)));
    assert!(overlaps(text_range(0, 10), text_range(2, 3)));
    assert!(overlaps(text_range(2, 3), text_range(0, 10)));
    assert!(overlaps(text_range(4, 4), text_range(4, 4)));
    assert!(overlaps(text_range(0, 5), text_range(5, 5)));
    assert!(overlaps(text_range(0, 5), text_range(5, 9)));
    assert!(overlaps(text_range(5, 9), text_range(0, 5)));
    assert!(!overlaps(text_range(0, 5), text_range(6, 9)));
    assert!(!overlaps(text_range(6, 9), text_range(0, 5)));
    assert!(!overlaps(text_range(3, 3), text_range(4, 4)));
    assert!(!overlaps(text_range(0, 2), text_range(7, 9)));
    assert!(overlaps(text_range(0, 4_000_000_000), text_range(3_999_999_999, 4_000_000_001)));
    let far = 1usize << 40;
    assert!(overlaps(text_range(0, far), text_range(far - 1, far + 1)));
    assert!(overlaps(text_range(far, far + 5), text_range(far + 5, far + 9)));
    assert!(!overlaps(text_range(far, far + 5), text_range(far + 6, far + 9)));
    assert!(!overlaps(text_range(0, 5), text_range(far, far + 9)));
    assert!(overlaps(text_range(9, 3), text_range(4, 5)));
    assert!(!overlaps(text_range(9, 3), text_range(20, 30)));
    assert!(overlaps(text_range(9, 3), text_range(1, 5)));
    for (a, b) in [(0, 5), (5, 9), (2, 3), (4, 4), (7, 9), (0, 10)] {
        for (c, d) in [(0, 5), (5, 9), (2, 3), (4, 4), (7, 9), (0, 10)] {
            assert_eq!(
                overlaps(text_range(a, b), text_range(c, d)),
                overlaps(text_range(c, d), text_range(a, b))
            );
        }
    }
}
