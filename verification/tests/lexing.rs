use oxc_toml::lexer::{Lexer, LexerToken};
use oxc_toml::syntax::{
    lex_bytes, lex_multi_line_string, lex_multi_line_string_literal, lex_string, lex_string_literal,
    try_lex_datetime, try_lex_number, try_match_date, try_match_time, try_match_timezone,
    SyntaxKind,
};

fn kinds(source: &str) -> Vec<(Option<SyntaxKind>, &str)> {
    let mut lexer: Lexer<SyntaxKind> = Lexer::new(source);
    let mut out = Vec::new();
    while let Some(token) = lexer.next() {
        out.push((token.ok(), lexer.slice()));
    }
    out
}

#[test]
fn punctuation_is_one_byte_each() {
    assert_eq!(
        kinds(".,=[]{}"),
        vec![
            (Some(SyntaxKind::PERIOD), "."),
            (Some(SyntaxKind::COMMA), ","),
            (Some(SyntaxKind::EQ), "="),
            (Some(SyntaxKind::BRACKET_START), "["),
            (Some(SyntaxKind::BRACKET_END), "]"),
            (Some(SyntaxKind::BRACE_START), "{"),
            (Some(SyntaxKind::BRACE_END), "}"),
        ]
    );
}

#[test]
fn whitespace_and_newlines_are_grouped() {
    assert_eq!(
        kinds(" \t \n\n\r\n\r\n#c \r\n"),
        vec![
            (Some(SyntaxKind::WHITESPACE), " \t "),
            (Some(SyntaxKind::NEWLINE), "\n\n"),
            (Some(SyntaxKind::NEWLINE), "\r\n\r\n"),
            (Some(SyntaxKind::COMMENT), "#c "),
            (Some(SyntaxKind::NEWLINE), "\r\n"),
        ]
    );
}

#[test]
fn a_lone_carriage_return_is_an_error_token() {
    assert_eq!(kinds("\ra"), vec![(None, "\r"), (Some(SyntaxKind::IDENT), "a")]);
}

#[test]
fn an_entry_lexes_to_key_eq_value() {
    assert_eq!(
        kinds("value=1"),
        vec![
            (Some(SyntaxKind::IDENT), "value"),
            (Some(SyntaxKind::EQ), "="),
            (Some(SyntaxKind::INTEGER), "1"),
        ]
    );
}

#[test]
fn basic_string_ends_at_first_unescaped_quote() {
    assert_eq!(lex_string(b"abc\" rest"), Some(4));
    assert_eq!(lex_string(b"a\\\"b\""), Some(5));
    assert_eq!(lex_string(b"a\\\\\"b\""), Some(4));
    assert_eq!(lex_string(b"never ends\\\""), None);
    assert_eq!(lex_string(b""), None);
    assert_eq!(lex_bytes(b"\"a\\\"b\" x"), Some((SyntaxKind::STRING, 6)));
}

#[test]
fn literal_string_ends_at_first_quote() {
    assert_eq!(lex_string_literal(b"a\\' rest"), Some(3));
    assert_eq!(lex_string_literal(b"no end"), None);
    assert_eq!(lex_bytes(b"'some string'"), Some((SyntaxKind::STRING_LITERAL, 13)));
}

#[test]
fn multi_line_string_takes_up_to_two_more_quotes() {
    assert_eq!(lex_multi_line_string(b"abc\"\"\""), Some(6));
    assert_eq!(lex_multi_line_string(b"abc\"\"\"\" x"), Some(7));
    assert_eq!(lex_multi_line_string(b"abc\"\"\"\"\"x"), Some(8));
    assert_eq!(lex_multi_line_string(b"abc\"\"\"\"\"\"x"), None);
    assert_eq!(lex_multi_line_string(b"abc\"\"\"\"\"\""), None);
    assert_eq!(lex_multi_line_string(b"a\"b\"\"c"), None);
    assert_eq!(lex_multi_line_string(b"a\\\"\"\"b\"\"\""), Some(9));
    assert_eq!(lex_multi_line_string(b"\"\"\\\"\"\""), None);
    assert_eq!(lex_bytes(b"\"\"\"a\nb\"\"\" x"), Some((SyntaxKind::MULTI_LINE_STRING, 9)));
}

#[test]
fn multi_line_literal_takes_up_to_two_more_quotes() {
    assert_eq!(lex_multi_line_string_literal(b"abc'''"), Some(6));
    assert_eq!(lex_multi_line_string_literal(b"abc''''' x"), Some(8));
    assert_eq!(lex_multi_line_string_literal(b"abc''''''x"), None);
    assert_eq!(lex_multi_line_string_literal(b"a\\'''"), Some(5));
    assert_eq!(lex_multi_line_string_literal(b"a''b"), None);
    assert_eq!(lex_bytes(b"'''a\nb'''"), Some((SyntaxKind::MULTI_LINE_STRING_LITERAL, 9)));
}

#[test]
fn unterminated_multi_line_string_falls_back_to_an_empty_string() {
    assert_eq!(lex_bytes(b"\"\"\"abc"), Some((SyntaxKind::STRING, 2)));
    assert_eq!(lex_bytes(b"'''abc"), Some((SyntaxKind::STRING_LITERAL, 2)));
}

#[test]
fn unterminated_string_is_an_error_token() {
    assert_eq!(lex_bytes(b"\"abc"), None);
    assert_eq!(kinds("\"ab")[0], (None, "\""));
}

#[test]
fn booleans() {
    assert_eq!(lex_bytes(b"true"), Some((SyntaxKind::BOOL, 4)));
    assert_eq!(lex_bytes(b"false,"), Some((SyntaxKind::BOOL, 5)));
    assert_eq!(lex_bytes(b"truth"), Some((SyntaxKind::IDENT, 5)));
}

#[test]
fn date_validation_follows_the_calendar() {
    assert_eq!(try_match_date(b"2023-02-29"), None);
    assert_eq!(try_match_date(b"2024-02-29"), Some(10));
    assert_eq!(try_match_date(b"1900-02-29"), None);
    assert_eq!(try_match_date(b"2000-02-29"), Some(10));
    assert_eq!(try_match_date(b"2023-04-31"), None);
    assert_eq!(try_match_date(b"2023-04-30"), Some(10));
    assert_eq!(try_match_date(b"2023-12-31"), Some(10));
    assert_eq!(try_match_date(b"2023-13-01"), None);
    assert_eq!(try_match_date(b"2023-00-10"), None);
    assert_eq!(try_match_date(b"2023-01-00"), None);
    assert_eq!(try_match_date(b"2023-1-01"), None);
    assert_eq!(try_match_date(b"2023-01-0"), None);
}

#[test]
fn an_impossible_date_is_no_date_token() {
    assert_ne!(lex_bytes(b"2023-02-29").map(|t| t.0), Some(SyntaxKind::DATE));
    assert_eq!(lex_bytes(b"2024-02-29"), Some((SyntaxKind::DATE, 10)));
    assert_eq!(lex_bytes(b"2023-02-29"), Some((SyntaxKind::INTEGER, 4)));
    assert_eq!(lex_bytes(b"2023-99-99"), Some((SyntaxKind::INTEGER, 4)));
}

#[test]
fn times_and_fractions() {
    assert_eq!(try_match_time(b"07:32:00"), Some(8));
    assert_eq!(try_match_time(b"23:59:59.999999 x"), Some(15));
    assert_eq!(try_match_time(b"07:32:00,5"), Some(10));
    assert_eq!(try_match_time(b"07:32:00."), None);
    assert_eq!(try_match_time(b"24:00:00"), None);
    assert_eq!(try_match_time(b"00:60:00"), None);
    assert_eq!(try_match_time(b"00:00:60"), None);
    assert_eq!(try_match_time(b"07:32"), None);
    assert_eq!(lex_bytes(b"07:32:00"), Some((SyntaxKind::TIME, 8)));
}

#[test]
fn utc_offsets() {
    assert_eq!(try_match_timezone(b"+01:00"), Some(6));
    assert_eq!(try_match_timezone(b"-23:59"), Some(6));
    assert_eq!(try_match_timezone(b"+24:00"), None);
    assert_eq!(try_match_timezone(b"+01:60"), None);
    assert_eq!(try_match_timezone(b"01:00:"), None);
    assert_eq!(try_match_timezone(b"+0100"), None);
}

#[test]
fn date_times() {
    assert_eq!(try_lex_datetime(b"1979-05-27"), Some((SyntaxKind::DATE, 10)));
    assert_eq!(try_lex_datetime(b"1979-05-27T07:32:00"), Some((SyntaxKind::DATE_TIME_LOCAL, 19)));
    assert_eq!(try_lex_datetime(b"1979-05-27 07:32:00.5"), Some((SyntaxKind::DATE_TIME_LOCAL, 21)));
    assert_eq!(try_lex_datetime(b"1979-05-27t07:32:00Z"), Some((SyntaxKind::DATE_TIME_OFFSET, 20)));
    assert_eq!(try_lex_datetime(b"1979-05-27T07:32:00z"), Some((SyntaxKind::DATE_TIME_OFFSET, 20)));
    assert_eq!(
        try_lex_datetime(b"1979-05-27T00:32:00-07:00"),
        Some((SyntaxKind::DATE_TIME_OFFSET, 25))
    );
    assert_eq!(
        try_lex_datetime(b"1979-05-27T00:32:00-25:00"),
        Some((SyntaxKind::DATE_TIME_LOCAL, 19))
    );
    assert_eq!(try_lex_datetime(b"1979-05-27T25:32:00"), Some((SyntaxKind::DATE, 10)));
    assert_eq!(try_lex_datetime(b"1979-05-27X"), Some((SyntaxKind::DATE, 10)));
    assert_eq!(try_lex_datetime(b"1979-15-27"), None);
    assert_eq!(try_lex_datetime(b"12345"), None);
}

#[test]
fn numbers() {
    assert_eq!(try_lex_number(b"42"), Some((SyntaxKind::INTEGER, 2)));
    assert_eq!(try_lex_number(b"+1_000 "), Some((SyntaxKind::INTEGER, 6)));
    assert_eq!(try_lex_number(b"-17"), Some((SyntaxKind::INTEGER, 3)));
    assert_eq!(try_lex_number(b"3.14"), Some((SyntaxKind::FLOAT, 4)));
    assert_eq!(try_lex_number(b"3."), Some((SyntaxKind::INTEGER, 1)));
    assert_eq!(try_lex_number(b"3.x"), Some((SyntaxKind::INTEGER, 1)));
    assert_eq!(try_lex_number(b"5e+22"), Some((SyntaxKind::FLOAT, 5)));
    assert_eq!(try_lex_number(b"6.626E-34,"), Some((SyntaxKind::FLOAT, 9)));
    assert_eq!(try_lex_number(b"1e"), None);
    assert_eq!(try_lex_number(b"1e+"), None);
    assert_eq!(try_lex_number(b"+"), None);
    assert_eq!(try_lex_number(b"abc"), None);
    assert_eq!(try_lex_number(b""), None);
}

#[test]
fn integers_with_a_base_need_a_digit() {
    assert_eq!(lex_bytes(b"0xDEAD_beef"), Some((SyntaxKind::INTEGER_HEX, 11)));
    assert_eq!(lex_bytes(b"0o755"), Some((SyntaxKind::INTEGER_OCT, 5)));
    assert_eq!(lex_bytes(b"0o758"), Some((SyntaxKind::INTEGER_OCT, 4)));
    assert_eq!(lex_bytes(b"0b1101"), Some((SyntaxKind::INTEGER_BIN, 6)));
    assert_eq!(lex_bytes(b"0x"), Some((SyntaxKind::INTEGER, 1)));
    assert_eq!(lex_bytes(b"0b2"), Some((SyntaxKind::INTEGER, 1)));
    assert_eq!(lex_bytes(b"0x_"), Some((SyntaxKind::INTEGER, 1)));
    assert_eq!(lex_bytes(b"0o_"), Some((SyntaxKind::INTEGER, 1)));
    assert_eq!(lex_bytes(b"0b_"), Some((SyntaxKind::INTEGER, 1)));
    assert_eq!(lex_bytes(b"0x___ "), Some((SyntaxKind::INTEGER, 1)));
    assert_eq!(lex_bytes(b"0x_1"), Some((SyntaxKind::INTEGER_HEX, 4)));
    assert_eq!(lex_bytes(b"0x1_"), Some((SyntaxKind::INTEGER_HEX, 4)));
    assert_eq!(lex_bytes(b"0o_8"), Some((SyntaxKind::INTEGER, 1)));
    assert_eq!(lex_bytes(b"0b__1_"), Some((SyntaxKind::INTEGER_BIN, 6)));
}

#[test]
fn special_floats_need_a_sign_to_be_floats() {
    assert_eq!(lex_bytes(b"+nan"), Some((SyntaxKind::FLOAT, 4)));
    assert_eq!(lex_bytes(b"-inf"), Some((SyntaxKind::FLOAT, 4)));
    assert_eq!(lex_bytes(b"nan"), Some((SyntaxKind::IDENT, 3)));
    assert_eq!(lex_bytes(b"inf"), Some((SyntaxKind::IDENT, 3)));
}

#[test]
fn identifiers_and_globs() {
    assert_eq!(lex_bytes(b"bare-key_1 ="), Some((SyntaxKind::IDENT, 10)));
    assert_eq!(lex_bytes(b"-abc"), Some((SyntaxKind::IDENT, 4)));
    assert_eq!(lex_bytes(b"*ab?c.d"), Some((SyntaxKind::IDENT_WITH_GLOB, 5)));
    assert_eq!(
        kinds("ab*c"),
        vec![(Some(SyntaxKind::IDENT), "ab"), (Some(SyntaxKind::IDENT_WITH_GLOB), "*c")]
    );
    assert_eq!(lex_bytes(b"+"), None);
    assert_eq!(lex_bytes(b""), None);
}

#[test]
fn an_unmatched_character_is_one_error_token() {
    assert_eq!(
        kinds("é=€𝄞!"),
        vec![
            (None, "é"),
            (Some(SyntaxKind::EQ), "="),
            (None, "€"),
            (None, "𝄞"),
            (None, "!"),
        ]
    );
}

#[test]
fn lexer_reports_span_slice_and_remainder() {
    let mut lexer: Lexer<SyntaxKind> = Lexer::new("a = 1");
    assert_eq!(lexer.span(), 0..0);
    assert_eq!(lexer.slice(), "");
    assert_eq!(lexer.remainder(), "a = 1");
    assert_eq!(lexer.next(), Some(Ok(SyntaxKind::IDENT)));
    assert_eq!(lexer.span(), 0..1);
    assert_eq!(lexer.slice(), "a");
    assert_eq!(lexer.remainder(), " = 1");
    assert_eq!(lexer.next(), Some(Ok(SyntaxKind::WHITESPACE)));
    assert_eq!(lexer.next(), Some(Ok(SyntaxKind::EQ)));
    assert_eq!(lexer.next(), Some(Ok(SyntaxKind::WHITESPACE)));
    assert_eq!(lexer.next(), Some(Ok(SyntaxKind::INTEGER)));
    assert_eq!(lexer.span(), 4..5);
    assert_eq!(lexer.remainder(), "");
    assert_eq!(lexer.next(), None);
    assert_eq!(lexer.span(), 4..5);
}

#[test]
fn lexer_on_empty_input() {
    let mut lexer: Lexer<SyntaxKind> = Lexer::new("");
    assert_eq!(lexer.next(), None);
    assert_eq!(SyntaxKind::lex(""), None);
}

#[test]
fn token_spans_cover_the_input() {
    let source = "[a]\nb = \"x\\\"y\" # é\n\u{1F600} c = [1, 2.5, 1979-05-27T07:32:00Z]\r\n";
    let mut lexer: Lexer<SyntaxKind> = Lexer::new(source);
    let mut end = 0;
    let mut text = String::new();
    while let Some(_) = lexer.next() {
        assert_eq!(lexer.span().start, end);
        end = lexer.span().end;
        text.push_str(lexer.slice());
    }
    assert_eq!(end, source.len());
    assert_eq!(text, source);
}
