//! The kinds of tokens and nodes, and the token grammar.

use crate::lexer::LexerToken;
use crate::scan::{
    any_in_class, count_run, has_in_class, has_three, holds_three, is_digit, is_ident_char,
    is_whitespace, lemma_run_len, run_len, spec_is_digit, spec_is_ident_char, spec_is_whitespace,
    ByteClass, CH_APOSTROPHE, CH_ASTERISK, CH_BACKSLASH, CH_BRACE_CLOSE, CH_BRACE_OPEN,
    CH_BRACKET_CLOSE, CH_BRACKET_OPEN, CH_COLON, CH_COMMA, CH_CR, CH_EQUALS, CH_HASH, CH_LF,
    CH_LOWER_A, CH_LOWER_B, CH_LOWER_E, CH_LOWER_F, CH_LOWER_I, CH_LOWER_L, CH_LOWER_N, CH_LOWER_O,
    CH_LOWER_R, CH_LOWER_S, CH_LOWER_T, CH_LOWER_U, CH_LOWER_X, CH_LOWER_Z, CH_MINUS, CH_PERIOD,
    CH_PLUS, CH_QUESTION, CH_QUOTE, CH_SPACE, CH_UPPER_E, CH_UPPER_T, CH_UPPER_Z, CH_ZERO,
};
use crate::text::{lemma_boundary_after_ascii, lemma_str_bytes_valid};
use vstd::prelude::*;
use vstd::slice::slice_subrange;
use vstd::string::StringSliceAdditionalSpecFns;

verus! {

/// Every kind of token and of node that a syntax tree can hold.
#[allow(non_camel_case_types)]
#[derive(Debug, Clone, Copy, PartialEq, Eq, PartialOrd, Ord, Hash, Structural)]
pub enum SyntaxKind {
    WHITESPACE,
    NEWLINE,
    COMMENT,
    IDENT,
    /// Not part of the regular TOML syntax, only used to allow
    /// glob patterns in keys.
    IDENT_WITH_GLOB,
    PERIOD,
    COMMA,
    EQ,
    STRING,
    MULTI_LINE_STRING,
    STRING_LITERAL,
    MULTI_LINE_STRING_LITERAL,
    INTEGER,
    INTEGER_HEX,
    INTEGER_OCT,
    INTEGER_BIN,
    FLOAT,
    BOOL,
    DATE_TIME_OFFSET,
    DATE_TIME_LOCAL,
    DATE,
    TIME,
    BRACKET_START,
    BRACKET_END,
    BRACE_START,
    BRACE_END,
    ERROR,
    /// A dotted key, such as `parent.child`.
    KEY,
    /// A value, such as `"2"`.
    VALUE,
    /// A table header, such as `[table]`.
    TABLE_HEADER,
    /// A header of an array of tables, such as `[[table]]`.
    TABLE_ARRAY_HEADER,
    /// A key with its value, such as `key = "value"`.
    ENTRY,
    /// An array, such as `[ 1, 2 ]`.
    ARRAY,
    /// An inline table, such as `{ key = "value" }`.
    INLINE_TABLE,
    /// The node that holds the whole document.
    ROOT,
}

/// The number of backslashes that stand directly before offset `i`.
pub open spec fn backslashes_before(s: Seq<u8>, i: int) -> nat
    decreases i,
{
    if 0 < i <= s.len() && s[i - 1] == CH_BACKSLASH {
        1 + backslashes_before(s, i - 1)
    } else {
        0
    }
}

/// The byte at `i` is a double quote that no backslash escapes: an even number of
/// backslashes stands before it.
pub open spec fn closes_string(s: Seq<u8>, i: int) -> bool {
    0 <= i < s.len() && s[i] == CH_QUOTE && backslashes_before(s, i) % 2 == 0
}

/// The offset just past the first closing quote at or after `i`, for the body of a basic
/// string; `None` where the string never ends.
pub open spec fn string_end(s: Seq<u8>, i: int) -> Option<int>
    decreases s.len() - i,
{
    if i < 0 || i >= s.len() {
        None
    } else if closes_string(s, i) {
        Some(i + 1)
    } else {
        string_end(s, i + 1)
    }
}

/// Scans the body of a basic string, which starts after the opening quote, and gives its
/// length with the closing quote.
pub fn lex_string(input: &[u8]) -> (r: Option<usize>)
    ensures
        r matches Some(n) ==> string_end(input@, 0) == Some(n as int) && 0 < n <= input@.len()
            && input@[n - 1] == CH_QUOTE,
        r is None ==> string_end(input@, 0) is None,
{
    let mut escaped = false;
    let mut i: usize = 0;
    while i < input.len()
        invariant
            i <= input@.len(),
            escaped == (backslashes_before(input@, i as int) % 2 == 1),
            string_end(input@, 0) == string_end(input@, i as int),
        decreases input@.len() - i,
    {
        let b = input[i];
        if b == CH_BACKSLASH {
            escaped = !escaped;
            i += 1;
            continue ;
        }
        if b == CH_QUOTE && !escaped {
            return Some(i + 1);
        }
        escaped = false;
        i += 1;
    }
    None
}

/// The offset just past the first single quote at or after `i`, for the body of a literal
/// string; `None` where there is none.
pub open spec fn string_literal_end(s: Seq<u8>, i: int) -> Option<int>
    decreases s.len() - i,
{
    if i < 0 || i >= s.len() {
        None
    } else if s[i] == CH_APOSTROPHE {
        Some(i + 1)
    } else {
        string_literal_end(s, i + 1)
    }
}

/// Scans the body of a literal string, which starts after the opening quote, and gives its
/// length with the closing quote.
pub fn lex_string_literal(input: &[u8]) -> (r: Option<usize>)
    ensures
        r matches Some(n) ==> string_literal_end(input@, 0) == Some(n as int) && 0 < n
            <= input@.len() && input@[n - 1] == CH_APOSTROPHE,
        r is None ==> string_literal_end(input@, 0) is None,
{
    let mut i: usize = 0;
    while i < input.len()
        invariant
            i <= input@.len(),
            string_literal_end(input@, 0) == string_literal_end(input@, i as int),
        decreases input@.len() - i,
    {
        if input[i] == CH_APOSTROPHE {
            return Some(i + 1);
        }
        i += 1;
    }
    None
}

/// The number of quote bytes `q` that stand directly before offset `i`, counting none that
/// follows a backslash where `escapes` is set.
pub open spec fn quotes_before(s: Seq<u8>, i: int, q: u8, escapes: bool) -> nat
    decreases i,
{
    if 0 < i <= s.len() && s[i - 1] == q && !(escapes && i >= 2 && s[i - 2] == CH_BACKSLASH) {
        1 + quotes_before(s, i - 1, q, escapes)
    } else {
        0
    }
}

/// The first offset from `i` on before which three quotes in a row stand: there the closing
/// marker of a multi-line string is complete.
pub open spec fn first_closing_marker(s: Seq<u8>, i: int, q: u8, escapes: bool) -> Option<int>
    decreases s.len() + 1 - i,
{
    if i < 0 || i > s.len() {
        None
    } else if quotes_before(s, i, q, escapes) >= 3 {
        Some(i)
    } else {
        first_closing_marker(s, i + 1, q, escapes)
    }
}

/// The class that holds the quote byte `q` alone.
pub open spec fn quote_class(q: u8) -> ByteClass {
    if q == CH_QUOTE {
        ByteClass::Quote
    } else {
        ByteClass::Apostrophe
    }
}

/// The length of the body of a multi-line string with its closing marker. Up to two more
/// quotes directly after the first complete marker belong to the string; with a third the
/// string does not end at all.
pub open spec fn multi_line_end(s: Seq<u8>, q: u8, escapes: bool) -> Option<int> {
    match first_closing_marker(s, 0, q, escapes) {
        None => None,
        Some(i) => {
            let more = run_len(s, i, quote_class(q));
            if more >= 3 {
                None
            } else {
                Some(i + more)
            }
        },
    }
}

/// Scans the body of a multi-line string whose quote byte is `q`.
fn lex_multi_line(input: &[u8], q: u8, escapes: bool) -> (r: Option<usize>)
    requires
        q == CH_QUOTE || q == CH_APOSTROPHE,
    ensures
        r matches Some(n) ==> multi_line_end(input@, q, escapes) == Some(n as int) && 3 <= n
            <= input@.len() && input@[n - 1] == q,
        r is None ==> multi_line_end(input@, q, escapes) is None,
{
    let mut i: usize = 0;
    let mut quote_count: usize = 0;
    let mut escaped = false;
    while i < input.len() && quote_count < 3
        invariant
            i <= input@.len(),
            q == CH_QUOTE || q == CH_APOSTROPHE,
            escaped == (escapes && i > 0 && input@[i - 1] == CH_BACKSLASH),
            !escaped ==> quote_count == quotes_before(input@, i as int, q, escapes),
            escaped ==> quote_count < 3,
            quote_count <= 3,
            quote_count < 3 ==> first_closing_marker(input@, 0, q, escapes)
                == first_closing_marker(input@, i + 1, q, escapes),
            quote_count == 3 ==> first_closing_marker(input@, 0, q, escapes) == Some(i as int),
        decreases input@.len() - i,
    {
        let b = input[i];
        i += 1;
        if escapes && b == CH_BACKSLASH {
            escaped = true;
            assert(quotes_before(input@, i as int, q, escapes) == 0);
            continue ;
        }
        if b == q && !escaped {
            quote_count += 1;
        } else {
            quote_count = 0;
        }
        escaped = false;
        proof {
            if quote_count == 3 {
                assert(first_closing_marker(input@, i as int, q, escapes) == Some(i as int));
            }
        }
    }
    if quote_count < 3 {
        return None;
    }
    let more: usize = count_run(input, i, if q == CH_QUOTE {
        ByteClass::Quote
    } else {
        ByteClass::Apostrophe
    });
    if more >= 3 {
        None
    } else {
        proof {
            lemma_run_len(input@, i as int, quote_class(q));
        }
        Some(i + more)
    }
}

/// Scans the body of a multi-line basic string, which starts after the opening `"""`, and
/// gives its length with the closing marker.
pub fn lex_multi_line_string(input: &[u8]) -> (r: Option<usize>)
    ensures
        r matches Some(n) ==> multi_line_end(input@, CH_QUOTE, true) == Some(n as int) && 3 <= n
            <= input@.len() && input@[n - 1] == CH_QUOTE,
        r is None ==> multi_line_end(input@, CH_QUOTE, true) is None,
{
    lex_multi_line(input, CH_QUOTE, true)
}

/// Scans the body of a multi-line literal string, which starts after the opening `'''`, and
/// gives its length with the closing marker.
pub fn lex_multi_line_string_literal(input: &[u8]) -> (r: Option<usize>)
    ensures
        r matches Some(n) ==> multi_line_end(input@, CH_APOSTROPHE, false) == Some(n as int) && 3
            <= n <= input@.len() && input@[n - 1] == CH_APOSTROPHE,
        r is None ==> multi_line_end(input@, CH_APOSTROPHE, false) is None,
{
    lex_multi_line(input, CH_APOSTROPHE, false)
}

/// The number that the decimal digit `b` stands for.
pub open spec fn digit_value(b: u8) -> int {
    b - CH_ZERO
}

/// The number written by the two decimal digits at offsets `i` and `i + 1`.
pub open spec fn two_digits(s: Seq<u8>, i: int) -> int {
    10 * digit_value(s[i]) + digit_value(s[i + 1])
}

/// The number written by the four decimal digits from offset `i` on.
pub open spec fn four_digits(s: Seq<u8>, i: int) -> int {
    1000 * digit_value(s[i]) + 100 * digit_value(s[i + 1]) + 10 * digit_value(s[i + 2])
        + digit_value(s[i + 3])
}

/// Whether the bytes at offsets `i` and `i + 1` are decimal digits.
pub open spec fn is_digit_pair(s: Seq<u8>, i: int) -> bool {
    0 <= i && i + 1 < s.len() && is_digit(s[i]) && is_digit(s[i + 1])
}

pub open spec fn is_leap_year(year: int) -> bool {
    (year % 4 == 0 && year % 100 != 0) || year % 400 == 0
}

/// The number of days of a month of the Gregorian calendar.
pub open spec fn days_in_month(year: int, month: int) -> int {
    if month == 2 {
        if is_leap_year(year) {
            29
        } else {
            28
        }
    } else if month == 4 || month == 6 || month == 9 || month == 11 {
        30
    } else {
        31
    }
}

/// Whether `s` starts with a calendar date `YYYY-MM-DD` that exists.
pub open spec fn is_date(s: Seq<u8>) -> bool {
    &&& s.len() >= 10
    &&& is_digit_pair(s, 0)
    &&& is_digit_pair(s, 2)
    &&& s[4] == CH_MINUS
    &&& is_digit_pair(s, 5)
    &&& s[7] == CH_MINUS
    &&& is_digit_pair(s, 8)
    &&& 1 <= two_digits(s, 5) <= 12
    &&& 1 <= two_digits(s, 8) <= days_in_month(four_digits(s, 0), two_digits(s, 5))
}

fn read_digit(b: u8) -> (r: u32)
    requires
        is_digit(b),
    ensures
        r == digit_value(b),
        r <= 9,
{
    (b - CH_ZERO) as u32
}

fn read_two_digits(input: &[u8], i: usize) -> (r: Option<u32>)
    requires
        i + 1 < input@.len(),
    ensures
        r is Some == is_digit_pair(input@, i as int),
        r matches Some(v) ==> v == two_digits(input@, i as int) && v <= 99,
{
    if is_digit(input[i]) && is_digit(input[i + 1]) {
        Some(read_digit(input[i]) * 10 + read_digit(input[i + 1]))
    } else {
        None
    }
}

/// Matches a calendar date at the start of `input`, and gives its length.
pub fn try_match_date(input: &[u8]) -> (r: Option<usize>)
    ensures
        r == (if is_date(input@) {
            Some(10usize)
        } else {
            None
        }),
{
    if input.len() < 10 {
        return None;
    }
    if input[4] != CH_MINUS || input[7] != CH_MINUS {
        return None;
    }
    let (century, years, month, day) = match (
        read_two_digits(input, 0),
        read_two_digits(input, 2),
        read_two_digits(input, 5),
        read_two_digits(input, 8),
    ) {
        (Some(c), Some(y), Some(m), Some(d)) => (c, y, m, d),
        _ => { return None; },
    };
    let year: u32 = century * 100 + years;
    if month < 1 || month > 12 {
        return None;
    }
    let leap = (year % 4 == 0 && year % 100 != 0) || year % 400 == 0;
    let max_day: u32 = if month == 2 {
        if leap {
            29
        } else {
            28
        }
    } else if month == 4 || month == 6 || month == 9 || month == 11 {
        30
    } else {
        31
    };
    if day < 1 || day > max_day {
        return None;
    }
    Some(10)
}

/// The length of the time of day `HH:MM:SS`, with its fraction if it has one, that `s`
/// starts with. A `.` or `,` after the seconds must be followed by a digit.
pub open spec fn time_len(s: Seq<u8>) -> Option<int> {
    if s.len() >= 8 && is_digit_pair(s, 0) && s[2] == CH_COLON && is_digit_pair(s, 3) && s[5]
        == CH_COLON && is_digit_pair(s, 6) && two_digits(s, 0) <= 23 && two_digits(s, 3) <= 59
        && two_digits(s, 6) <= 59 {
        if s.len() > 8 && (s[8] == CH_PERIOD || s[8] == CH_COMMA) {
            if run_len(s, 9, ByteClass::Digit) == 0 {
                None
            } else {
                Some(9 + run_len(s, 9, ByteClass::Digit) as int)
            }
        } else {
            Some(8)
        }
    } else {
        None
    }
}

/// Matches a time of day at the start of `input`, and gives its length.
pub fn try_match_time(input: &[u8]) -> (r: Option<usize>)
    ensures
        r matches Some(n) ==> time_len(input@) == Some(n as int) && 8 <= n <= input@.len(),
        r is None ==> time_len(input@) is None,
{
    if input.len() < 8 {
        return None;
    }
    if input[2] != CH_COLON || input[5] != CH_COLON {
        return None;
    }
    let (hour, minute, second) = match (
        read_two_digits(input, 0),
        read_two_digits(input, 3),
        read_two_digits(input, 6),
    ) {
        (Some(h), Some(m), Some(s)) => (h, m, s),
        _ => { return None; },
    };
    if hour > 23 || minute > 59 || second > 59 {
        return None;
    }
    if 8 < input.len() && (input[8] == CH_PERIOD || input[8] == CH_COMMA) {
        let digits: usize = count_run(input, 9, ByteClass::Digit);
        if digits == 0 {
            return None;
        }
        return Some(9 + digits);
    }
    Some(8)
}

/// Whether `s` starts with an offset from UTC, `+HH:MM` or `-HH:MM`.
pub open spec fn is_utc_offset(s: Seq<u8>) -> bool {
    &&& s.len() >= 6
    &&& (s[0] == CH_PLUS || s[0] == CH_MINUS)
    &&& is_digit_pair(s, 1)
    &&& s[3] == CH_COLON
    &&& is_digit_pair(s, 4)
    &&& two_digits(s, 1) <= 23
    &&& two_digits(s, 4) <= 59
}

/// Matches an offset from UTC at the start of `input`, and gives its length.
pub fn try_match_timezone(input: &[u8]) -> (r: Option<usize>)
    ensures
        r == (if is_utc_offset(input@) {
            Some(6usize)
        } else {
            None
        }),
{
    if input.len() < 6 {
        return None;
    }
    if !(input[0] == CH_PLUS || input[0] == CH_MINUS) || input[3] != CH_COLON {
        return None;
    }
    let (hour, minute) = match (read_two_digits(input, 1), read_two_digits(input, 4)) {
        (Some(h), Some(m)) => (h, m),
        _ => { return None; },
    };
    if hour > 23 || minute > 59 {
        return None;
    }
    Some(6)
}

/// Whether `b` may stand between a date and a time of day.
pub open spec fn is_date_time_separator(b: u8) -> bool {
    b == CH_UPPER_T || b == CH_LOWER_T || b == CH_SPACE
}

/// The date or time that `s` starts with, and its length. A date followed by a separator
/// and a time is a local date-time, and an offset date-time where `Z`, `z` or an offset from
/// UTC follows.
pub open spec fn datetime_token(s: Seq<u8>) -> Option<(SyntaxKind, int)> {
    if time_len(s) is Some {
        Some((SyntaxKind::TIME, time_len(s)->0))
    } else if is_date(s) {
        if s.len() > 10 && is_date_time_separator(s[10]) && time_len(s.skip(11)) is Some {
            let total = 11 + time_len(s.skip(11))->0;
            if total < s.len() && (s[total] == CH_UPPER_Z || s[total] == CH_LOWER_Z) {
                Some((SyntaxKind::DATE_TIME_OFFSET, total + 1))
            } else if total < s.len() && is_utc_offset(s.skip(total)) {
                Some((SyntaxKind::DATE_TIME_OFFSET, total + 6))
            } else {
                Some((SyntaxKind::DATE_TIME_LOCAL, total))
            }
        } else {
            Some((SyntaxKind::DATE, 10))
        }
    } else {
        None
    }
}

/// Matches a date, a time or a date-time at the start of `input`.
pub fn try_lex_datetime(input: &[u8]) -> (r: Option<(SyntaxKind, usize)>)
    ensures
        r matches Some((kind, n)) ==> datetime_token(input@) == Some((kind, n as int)) && 8 <= n
            <= input@.len() && input@[n - 1] < 0x80,
        r is None ==> datetime_token(input@) is None,
{
    if let Some(len) = try_match_time(input) {
        proof {
            lemma_time_ends_ascii(input@);
        }
        return Some((SyntaxKind::TIME, len));
    }
    if try_match_date(input).is_some() {
        let date_len: usize = 10;
        if date_len < input.len() {
            let sep = input[date_len];
            if sep == CH_UPPER_T || sep == CH_LOWER_T || sep == CH_SPACE {
                let rest = slice_subrange(input, date_len + 1, input.len());
                if let Some(time_len) = try_match_time(rest) {
                    let total: usize = date_len + 1 + time_len;
                    proof {
                        lemma_time_ends_ascii(rest@);
                    }
                    if total < input.len() {
                        if input[total] == CH_UPPER_Z || input[total] == CH_LOWER_Z {
                            return Some((SyntaxKind::DATE_TIME_OFFSET, total + 1));
                        }
                        let tz_rest = slice_subrange(input, total, input.len());
                        if try_match_timezone(tz_rest).is_some() {
                            return Some((SyntaxKind::DATE_TIME_OFFSET, total + 6));
                        }
                    }
                    return Some((SyntaxKind::DATE_TIME_LOCAL, total));
                }
            }
        }
        return Some((SyntaxKind::DATE, date_len));
    }
    None
}

/// A time of day ends with a digit.
pub proof fn lemma_time_ends_ascii(s: Seq<u8>)
    requires
        time_len(s) is Some,
    ensures
        8 <= time_len(s)->0 <= s.len(),
        is_digit(s[time_len(s)->0 - 1]),
{
    if s.len() > 8 && (s[8] == CH_PERIOD || s[8] == CH_COMMA) {
        lemma_run_len(s, 9, ByteClass::Digit);
    }
}

/// Whether `b` is a sign of a number.
pub open spec fn is_sign(b: u8) -> bool {
    b == CH_PLUS || b == CH_MINUS
}

/// The decimal integer or float that `s` starts with, and its length: an optional sign and
/// digits; then, for a float, a fraction (a period that a digit follows, and digits), an
/// exponent (`e` or `E`, an optional sign, and digits), or both. An exponent without a digit
/// makes it no number at all. Digits may hold `_`.
pub open spec fn number_token(s: Seq<u8>) -> Option<(SyntaxKind, int)> {
    let sign: int = if s.len() > 0 && is_sign(s[0]) {
        1
    } else {
        0
    };
    let whole_end = sign + run_len(s, sign, ByteClass::DecimalBody);
    let has_fraction = whole_end + 1 < s.len() && s[whole_end] == CH_PERIOD && is_digit(
        s[whole_end + 1],
    );
    let fraction_end = if has_fraction {
        whole_end + 1 + run_len(s, whole_end + 1, ByteClass::DecimalBody)
    } else {
        whole_end
    };
    if whole_end == sign {
        None
    } else if fraction_end < s.len() && (s[fraction_end] == CH_LOWER_E || s[fraction_end]
        == CH_UPPER_E) {
        let exponent_start = if fraction_end + 1 < s.len() && is_sign(s[fraction_end + 1]) {
            fraction_end + 2
        } else {
            fraction_end + 1
        };
        let exponent_end = exponent_start + run_len(s, exponent_start, ByteClass::DecimalBody);
        if exponent_end == exponent_start {
            None
        } else {
            Some((SyntaxKind::FLOAT, exponent_end))
        }
    } else if has_fraction {
        Some((SyntaxKind::FLOAT, fraction_end))
    } else {
        Some((SyntaxKind::INTEGER, fraction_end))
    }
}

/// Matches a decimal integer or a float at the start of `input`.
pub fn try_lex_number(input: &[u8]) -> (r: Option<(SyntaxKind, usize)>)
    ensures
        r matches Some((kind, n)) ==> number_token(input@) == Some((kind, n as int)) && 0 < n
            <= input@.len() && input@[n - 1] < 0x80,
        r is None ==> number_token(input@) is None,
{
    let mut i: usize = 0;
    if i < input.len() && (input[i] == CH_PLUS || input[i] == CH_MINUS) {
        i += 1;
    }
    let start: usize = i;
    i += count_run(input, i, ByteClass::DecimalBody);
    if i == start {
        return None;
    }
    proof {
        lemma_run_len(input@, start as int, ByteClass::DecimalBody);
    }
    let mut is_float = false;
    if i < input.len() && input[i] == CH_PERIOD {
        if i + 1 < input.len() && is_digit(input[i + 1]) {
            is_float = true;
            i += 1;
            proof {
                lemma_run_len(input@, i as int, ByteClass::DecimalBody);
            }
            i += count_run(input, i, ByteClass::DecimalBody);
        }
    }
    if i < input.len() && (input[i] == CH_LOWER_E || input[i] == CH_UPPER_E) {
        i += 1;
        if i < input.len() && (input[i] == CH_PLUS || input[i] == CH_MINUS) {
            i += 1;
        }
        let exp_start: usize = i;
        proof {
            lemma_run_len(input@, i as int, ByteClass::DecimalBody);
        }
        i += count_run(input, i, ByteClass::DecimalBody);
        if i == exp_start {
            return None;
        }
        return Some((SyntaxKind::FLOAT, i));
    }
    Some((
        if is_float {
            SyntaxKind::FLOAT
        } else {
            SyntaxKind::INTEGER
        },
        i,
    ))
}

/// The kind of the token that the single byte `b` makes on its own.
pub open spec fn punctuation(b: u8) -> Option<SyntaxKind> {
    if b == CH_PERIOD {
        Some(SyntaxKind::PERIOD)
    } else if b == CH_COMMA {
        Some(SyntaxKind::COMMA)
    } else if b == CH_EQUALS {
        Some(SyntaxKind::EQ)
    } else if b == CH_BRACKET_OPEN {
        Some(SyntaxKind::BRACKET_START)
    } else if b == CH_BRACKET_CLOSE {
        Some(SyntaxKind::BRACKET_END)
    } else if b == CH_BRACE_OPEN {
        Some(SyntaxKind::BRACE_START)
    } else if b == CH_BRACE_CLOSE {
        Some(SyntaxKind::BRACE_END)
    } else {
        None
    }
}

/// The number of pairs of carriage return and line feed that follow each other from
/// offset `i` on.
pub open spec fn crlf_pairs(s: Seq<u8>, i: int) -> nat
    decreases s.len() - i,
{
    if 0 <= i && i + 1 < s.len() && s[i] == CH_CR && s[i + 1] == CH_LF {
        1 + crlf_pairs(s, i + 2)
    } else {
        0
    }
}

/// Whether `s` starts with the byte `b` three times.
pub open spec fn starts_with_three(s: Seq<u8>, b: u8) -> bool {
    s.len() >= 3 && s[0] == b && s[1] == b && s[2] == b
}

/// Whether `s` starts with `true`.
pub open spec fn starts_with_true(s: Seq<u8>) -> bool {
    s.len() >= 4 && s[0] == CH_LOWER_T && has_three(s, 1, CH_LOWER_R, CH_LOWER_U, CH_LOWER_E)
}

/// Whether `s` starts with `false`.
pub open spec fn starts_with_false(s: Seq<u8>) -> bool {
    s.len() >= 5 && s[0] == CH_LOWER_F && s[1] == CH_LOWER_A && has_three(
        s,
        2,
        CH_LOWER_L,
        CH_LOWER_S,
        CH_LOWER_E,
    )
}

/// Whether `s` starts with a signed `nan` or `inf`.
pub open spec fn starts_with_signed_special_float(s: Seq<u8>) -> bool {
    s.len() >= 4 && is_sign(s[0]) && (has_three(s, 1, CH_LOWER_N, CH_LOWER_A, CH_LOWER_N)
        || has_three(s, 1, CH_LOWER_I, CH_LOWER_N, CH_LOWER_F))
}

/// The length of the integer with the base prefix `letter` that `s` starts with: `0`, the
/// letter, and the longest run of bytes of class `body`, which holds the digits of the
/// base and `_`. The run must hold at least one byte of class `digit`, a digit of the
/// base: `_` alone makes no integer.
pub open spec fn based_integer_len(
    s: Seq<u8>,
    letter: u8,
    body: ByteClass,
    digit: ByteClass,
) -> Option<int> {
    let end = 2 + run_len(s, 2, body) as int;
    if s.len() >= 2 && s[0] == CH_ZERO && s[1] == letter && has_in_class(s, 2, end, digit) {
        Some(end)
    } else {
        None
    }
}

/// The integer with a base prefix that `s` starts with: `0x`, `0o` or `0b`, and at least
/// one digit of that base after it.
pub open spec fn based_integer_token(s: Seq<u8>) -> Option<(SyntaxKind, int)> {
    let hex = based_integer_len(s, CH_LOWER_X, ByteClass::HexBody, ByteClass::HexDigit);
    let octal = based_integer_len(s, CH_LOWER_O, ByteClass::OctalBody, ByteClass::OctalDigit);
    let binary = based_integer_len(s, CH_LOWER_B, ByteClass::BinaryBody, ByteClass::BinaryDigit);
    if hex is Some {
        Some((SyntaxKind::INTEGER_HEX, hex->0))
    } else if octal is Some {
        Some((SyntaxKind::INTEGER_OCT, octal->0))
    } else if binary is Some {
        Some((SyntaxKind::INTEGER_BIN, binary->0))
    } else {
        None
    }
}

/// The token of the family of numbers, dates and times that `s` starts with. The most
/// specific reading wins: a date or time, then a signed `nan` or `inf`, then an integer
/// with a base prefix, then a decimal integer or float.
pub open spec fn numeric_token(s: Seq<u8>) -> Option<(SyntaxKind, int)> {
    if datetime_token(s) is Some {
        datetime_token(s)
    } else if starts_with_signed_special_float(s) {
        Some((SyntaxKind::FLOAT, 4))
    } else if based_integer_token(s) is Some {
        based_integer_token(s)
    } else {
        number_token(s)
    }
}

/// The token that `s` starts with, and its length; `None` where no rule of the grammar
/// matches. The rules are tried in a fixed order, and each takes the longest stretch that
/// it can.
#[verifier::opaque]
pub open spec fn lex_token(s: Seq<u8>) -> Option<(SyntaxKind, int)> {
    if s.len() == 0 {
        None
    } else if punctuation(s[0]) is Some {
        Some((punctuation(s[0])->0, 1))
    } else if is_whitespace(s[0]) {
        Some((SyntaxKind::WHITESPACE, run_len(s, 0, ByteClass::Whitespace) as int))
    } else if s[0] == CH_LF {
        Some((SyntaxKind::NEWLINE, run_len(s, 0, ByteClass::LineFeed) as int))
    } else if s[0] == CH_CR && s.len() >= 2 && s[1] == CH_LF {
        Some((SyntaxKind::NEWLINE, 2 * crlf_pairs(s, 0) as int))
    } else if s[0] == CH_HASH {
        Some((SyntaxKind::COMMENT, run_len(s, 0, ByteClass::NotLineBreak) as int))
    } else if starts_with_three(s, CH_QUOTE) && multi_line_end(s.skip(3), CH_QUOTE, true)
        is Some {
        Some((SyntaxKind::MULTI_LINE_STRING, 3 + multi_line_end(s.skip(3), CH_QUOTE, true)->0))
    } else if starts_with_three(s, CH_APOSTROPHE) && multi_line_end(
        s.skip(3),
        CH_APOSTROPHE,
        false,
    ) is Some {
        Some(
            (
                SyntaxKind::MULTI_LINE_STRING_LITERAL,
                3 + multi_line_end(s.skip(3), CH_APOSTROPHE, false)->0,
            ),
        )
    } else if s[0] == CH_QUOTE && string_end(s.skip(1), 0) is Some {
        Some((SyntaxKind::STRING, 1 + string_end(s.skip(1), 0)->0))
    } else if s[0] == CH_APOSTROPHE && string_literal_end(s.skip(1), 0) is Some {
        Some((SyntaxKind::STRING_LITERAL, 1 + string_literal_end(s.skip(1), 0)->0))
    } else if starts_with_true(s) {
        Some((SyntaxKind::BOOL, 4))
    } else if starts_with_false(s) {
        Some((SyntaxKind::BOOL, 5))
    } else if (is_digit(s[0]) || is_sign(s[0])) && numeric_token(s) is Some {
        numeric_token(s)
    } else if is_ident_char(s[0]) {
        Some((SyntaxKind::IDENT, run_len(s, 0, ByteClass::Ident) as int))
    } else if s[0] == CH_ASTERISK || s[0] == CH_QUESTION {
        Some((SyntaxKind::IDENT_WITH_GLOB, run_len(s, 0, ByteClass::IdentGlob) as int))
    } else {
        None
    }
}

/// A token ends after an ASCII byte, or before one, or with the text.
pub open spec fn ends_clean(s: Seq<u8>, n: int) -> bool {
    0 < n <= s.len() && (s[n - 1] < 0x80 || n == s.len() || s[n] < 0x80)
}

fn lex_based_integer(input: &[u8]) -> (r: Option<(SyntaxKind, usize)>)
    ensures
        r matches Some((kind, n)) ==> based_integer_token(input@) == Some((kind, n as int)) && 2
            < n <= input@.len() && input@[n - 1] < 0x80,
        r is None ==> based_integer_token(input@) is None,
{
    if input.len() < 2 || input[0] != CH_ZERO {
        return None;
    }
    let (body, digit, kind) = if input[1] == CH_LOWER_X {
        (ByteClass::HexBody, ByteClass::HexDigit, SyntaxKind::INTEGER_HEX)
    } else if input[1] == CH_LOWER_O {
        (ByteClass::OctalBody, ByteClass::OctalDigit, SyntaxKind::INTEGER_OCT)
    } else if input[1] == CH_LOWER_B {
        (ByteClass::BinaryBody, ByteClass::BinaryDigit, SyntaxKind::INTEGER_BIN)
    } else {
        return None;
    };
    let run: usize = count_run(input, 2, body);
    if !any_in_class(input, 2, 2 + run, digit) {
        return None;
    }
    proof {
        lemma_run_len(input@, 2, body);
    }
    Some((kind, 2 + run))
}

fn lex_numeric(input: &[u8]) -> (r: Option<(SyntaxKind, usize)>)
    ensures
        r matches Some((kind, n)) ==> numeric_token(input@) == Some((kind, n as int)) && 0 < n
            <= input@.len() && input@[n - 1] < 0x80,
        r is None ==> numeric_token(input@) is None,
{
    if let Some(found) = try_lex_datetime(input) {
        return Some(found);
    }
    if input.len() >= 4 && (input[0] == CH_PLUS || input[0] == CH_MINUS) && (holds_three(
        input,
        1,
        CH_LOWER_N,
        CH_LOWER_A,
        CH_LOWER_N,
    ) || holds_three(input, 1, CH_LOWER_I, CH_LOWER_N, CH_LOWER_F)) {
        return Some((SyntaxKind::FLOAT, 4));
    }
    if let Some(found) = lex_based_integer(input) {
        return Some(found);
    }
    try_lex_number(input)
}

fn lex_newlines(input: &[u8]) -> (n: usize)
    ensures
        n == 2 * crlf_pairs(input@, 0),
        n <= input@.len(),
        n > 0 ==> input@[n - 1] == CH_LF,
{
    let mut i: usize = 0;
    while i + 1 < input.len() && input[i] == CH_CR && input[i + 1] == CH_LF
        invariant
            i <= input@.len(),
            2 * crlf_pairs(input@, 0) == i + 2 * crlf_pairs(input@, i as int),
            i > 0 ==> input@[i - 1] == CH_LF,
        decreases input@.len() - i,
    {
        i += 2;
    }
    i
}

/// Matches one token at the start of `input`, and gives its kind and its length.
pub fn lex_bytes(input: &[u8]) -> (r: Option<(SyntaxKind, usize)>)
    ensures
        r matches Some((kind, n)) ==> lex_token(input@) == Some((kind, n as int)) && ends_clean(
            input@,
            n as int,
        ),
        r is None ==> lex_token(input@) is None,
{
    reveal(lex_token);
    if input.len() == 0 {
        return None;
    }
    let first = input[0];
    if first == CH_PERIOD {
        return Some((SyntaxKind::PERIOD, 1));
    } else if first == CH_COMMA {
        return Some((SyntaxKind::COMMA, 1));
    } else if first == CH_EQUALS {
        return Some((SyntaxKind::EQ, 1));
    } else if first == CH_BRACKET_OPEN {
        return Some((SyntaxKind::BRACKET_START, 1));
    } else if first == CH_BRACKET_CLOSE {
        return Some((SyntaxKind::BRACKET_END, 1));
    } else if first == CH_BRACE_OPEN {
        return Some((SyntaxKind::BRACE_START, 1));
    } else if first == CH_BRACE_CLOSE {
        return Some((SyntaxKind::BRACE_END, 1));
    }
    if is_whitespace(first) {
        proof {
            lemma_run_len(input@, 0, ByteClass::Whitespace);
        }
        return Some((SyntaxKind::WHITESPACE, count_run(input, 0, ByteClass::Whitespace)));
    }
    if first == CH_LF {
        proof {
            lemma_run_len(input@, 0, ByteClass::LineFeed);
        }
        return Some((SyntaxKind::NEWLINE, count_run(input, 0, ByteClass::LineFeed)));
    }
    if first == CH_CR && input.len() >= 2 && input[1] == CH_LF {
        return Some((SyntaxKind::NEWLINE, lex_newlines(input)));
    }
    if first == CH_HASH {
        proof {
            lemma_run_len(input@, 0, ByteClass::NotLineBreak);
        }
        return Some((SyntaxKind::COMMENT, count_run(input, 0, ByteClass::NotLineBreak)));
    }
    if input.len() >= 3 && first == CH_QUOTE && input[1] == CH_QUOTE && input[2] == CH_QUOTE {
        if let Some(len) = lex_multi_line_string(slice_subrange(input, 3, input.len())) {
            return Some((SyntaxKind::MULTI_LINE_STRING, 3 + len));
        }
    }
    if input.len() >= 3 && first == CH_APOSTROPHE && input[1] == CH_APOSTROPHE && input[2]
        == CH_APOSTROPHE {
        if let Some(len) = lex_multi_line_string_literal(slice_subrange(input, 3, input.len())) {
            return Some((SyntaxKind::MULTI_LINE_STRING_LITERAL, 3 + len));
        }
    }
    if first == CH_QUOTE {
        if let Some(len) = lex_string(slice_subrange(input, 1, input.len())) {
            return Some((SyntaxKind::STRING, 1 + len));
        }
    }
    if first == CH_APOSTROPHE {
        if let Some(len) = lex_string_literal(slice_subrange(input, 1, input.len())) {
            return Some((SyntaxKind::STRING_LITERAL, 1 + len));
        }
    }
    if input.len() >= 4 && first == CH_LOWER_T && holds_three(
        input,
        1,
        CH_LOWER_R,
        CH_LOWER_U,
        CH_LOWER_E,
    ) {
        return Some((SyntaxKind::BOOL, 4));
    }
    if input.len() >= 5 && first == CH_LOWER_F && input[1] == CH_LOWER_A && holds_three(
        input,
        2,
        CH_LOWER_L,
        CH_LOWER_S,
        CH_LOWER_E,
    ) {
        return Some((SyntaxKind::BOOL, 5));
    }
    if is_digit(first) || first == CH_PLUS || first == CH_MINUS {
        if let Some(found) = lex_numeric(input) {
            return Some(found);
        }
    }
    if is_ident_char(first) {
        proof {
            lemma_run_len(input@, 0, ByteClass::Ident);
        }
        return Some((SyntaxKind::IDENT, count_run(input, 0, ByteClass::Ident)));
    }
    if first == CH_ASTERISK || first == CH_QUESTION {
        proof {
            lemma_run_len(input@, 0, ByteClass::IdentGlob);
        }
        return Some((SyntaxKind::IDENT_WITH_GLOB, count_run(input, 0, ByteClass::IdentGlob)));
    }
    None
}

impl<'source> LexerToken<'source> for SyntaxKind {
    open spec fn lex_spec(input: Seq<u8>) -> Option<(Self, int)> {
        lex_token(input)
    }

    fn lex(input: &'source str) -> (r: Option<(Self, usize)>) {
        let found = lex_bytes(input.as_bytes());
        proof {
            if let Some((_, n)) = found {
                lemma_str_bytes_valid(input);
                if input.spec_bytes()[n - 1] < 0x80 {
                    lemma_boundary_after_ascii(input.spec_bytes(), n as int);
                }
            }
        }
        found
    }
}

/// Pairs of carriage return and line feed hold nothing else.
pub proof fn lemma_crlf_pairs(s: Seq<u8>, i: int)
    requires
        0 <= i,
    ensures
        i + 2 * crlf_pairs(s, i) <= s.len() || crlf_pairs(s, i) == 0,
        forall|j: int|
            i <= j < i + 2 * crlf_pairs(s, i) ==> (#[trigger] s[j]) == CH_CR || s[j] == CH_LF,
    decreases s.len() - i,
{
    if i + 1 < s.len() && s[i] == CH_CR && s[i + 1] == CH_LF {
        lemma_crlf_pairs(s, i + 2);
    }
}

/// A `WHITESPACE` token holds blanks only, and a `NEWLINE` token line breaks only.
pub proof fn lemma_lex_token_layout(s: Seq<u8>)
    ensures
        lex_token(s) matches Some((kind, n)) ==> {
            &&& kind == SyntaxKind::WHITESPACE ==> forall|i: int|
                0 <= i < n ==> is_whitespace(#[trigger] s[i])
            &&& kind == SyntaxKind::NEWLINE ==> forall|i: int|
                0 <= i < n ==> (#[trigger] s[i]) == CH_CR || s[i] == CH_LF
        },
{
    reveal(lex_token);
    if s.len() > 0 {
        lemma_run_len(s, 0, ByteClass::Whitespace);
        lemma_run_len(s, 0, ByteClass::LineFeed);
        lemma_crlf_pairs(s, 0);
        lemma_numeric_token_kind(s);
    }
}

/// A byte of punctuation is a token by itself.
pub proof fn lemma_lex_token_punctuation(s: Seq<u8>)
    requires
        s.len() > 0,
        punctuation(s[0]) is Some,
    ensures
        lex_token(s) == Some((punctuation(s[0])->0, 1int)),
{
    reveal(lex_token);
}

/// An opening bracket is a token of one byte.
pub proof fn lemma_lex_token_bracket(s: Seq<u8>)
    ensures
        lex_token(s) matches Some((kind, n)) ==> kind == SyntaxKind::BRACKET_START ==> n == 1,
{
    reveal(lex_token);
    if s.len() > 0 {
        lemma_numeric_token_kind(s);
    }
}

/// The family of numbers, dates and times holds no layout.
pub proof fn lemma_numeric_token_kind(s: Seq<u8>)
    ensures
        numeric_token(s) matches Some((kind, _)) ==> kind != SyntaxKind::WHITESPACE && kind
            != SyntaxKind::NEWLINE && kind != SyntaxKind::BRACKET_START,
{
}

} // verus!
