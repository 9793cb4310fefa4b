//! Escape sequences in basic strings.

use crate::lexer::{Lexer, LexerToken};
use crate::scan::{
    all_in_class, count_run, is_digit, is_hex_digit, run_len, spec_is_digit, spec_is_hex_digit,
    ByteClass, CH_BACKSLASH, CH_CR, CH_LF, CH_LOWER_A, CH_LOWER_B, CH_LOWER_F, CH_LOWER_N,
    CH_LOWER_R, CH_LOWER_T, CH_LOWER_U, CH_QUOTE, CH_UPPER_A, CH_UPPER_F, CH_UPPER_U, CH_ZERO,
};
use crate::text::{
    lemma_boundary_after_ascii, lemma_boundary_step, lemma_str_bytes_valid, scalar_width,
};
use vstd::prelude::*;
use vstd::string::StringSliceAdditionalSpecFns;

verus! {

/// Escaping based on:
///
/// \b         - backspace       (U+0008)
/// \t         - tab             (U+0009)
/// \n         - linefeed        (U+000A)
/// \f         - form feed       (U+000C)
/// \r         - carriage return (U+000D)
/// \"         - quote           (U+0022)
/// \\         - backslash       (U+005C)
/// \uXXXX     - unicode         (U+XXXX)
/// \UXXXXXXXX - unicode         (U+XXXXXXXX)
#[derive(Debug, Clone, Copy, PartialEq, Eq, PartialOrd, Ord, Hash, Structural)]
pub enum Escape {
    Backspace,
    Tab,
    /// A backslash at the end of a line: the line break and the blanks before it.
    Newline,
    LineFeed,
    FormFeed,
    CarriageReturn,
    Quote,
    Backslash,
    Unicode,
    UnicodeLarge,
    /// A backslash and a character that form no escape.
    Unknown,
    /// A character that is not part of an escape.
    UnEscaped,
}

/// The escape that a backslash forms with the single byte `b` after it.
pub open spec fn simple_escape(b: u8) -> Option<Escape> {
    if b == CH_LOWER_B {
        Some(Escape::Backspace)
    } else if b == CH_LOWER_T {
        Some(Escape::Tab)
    } else if b == CH_LOWER_N {
        Some(Escape::LineFeed)
    } else if b == CH_LOWER_F {
        Some(Escape::FormFeed)
    } else if b == CH_LOWER_R {
        Some(Escape::CarriageReturn)
    } else if b == CH_QUOTE {
        Some(Escape::Quote)
    } else if b == CH_BACKSLASH {
        Some(Escape::Backslash)
    } else {
        None
    }
}

/// The length of the line continuation that `s` starts with: a backslash, blanks, and a
/// line feed or a carriage return with a line feed.
pub open spec fn line_continuation_len(s: Seq<u8>) -> Option<int> {
    let blanks = run_len(s, 1, ByteClass::Whitespace) as int;
    if s.len() == 0 || s[0] != CH_BACKSLASH {
        None
    } else if 1 + blanks < s.len() && s[1 + blanks] == CH_LF {
        Some(blanks + 2)
    } else if 2 + blanks < s.len() && s[1 + blanks] == CH_CR && s[2 + blanks] == CH_LF {
        Some(blanks + 3)
    } else {
        None
    }
}

/// Whether `s` starts with a backslash, the letter `letter` and `digits` bytes that are
/// hexadecimal digits or `_`.
pub open spec fn is_unicode_escape(s: Seq<u8>, letter: u8, digits: int) -> bool {
    &&& s.len() >= 2 + digits
    &&& s[0] == CH_BACKSLASH
    &&& s[1] == letter
    &&& forall|j: int| 2 <= j < 2 + digits ==> ByteClass::HexBody.holds(#[trigger] s[j])
}

/// The escape or the plain character that `s` starts with, and its length. The specific
/// escapes come first, then the line continuation, then the two unicode escapes; any
/// other backslash with a character after it is an unknown escape.
pub open spec fn escape_token(s: Seq<u8>) -> Option<(Escape, int)> {
    if s.len() == 0 {
        None
    } else if s[0] != CH_BACKSLASH {
        Some((Escape::UnEscaped, scalar_width(s[0])))
    } else if s.len() >= 2 && simple_escape(s[1]) is Some {
        Some((simple_escape(s[1])->0, 2))
    } else if line_continuation_len(s) is Some {
        Some((Escape::Newline, line_continuation_len(s)->0))
    } else if is_unicode_escape(s, CH_LOWER_U, 4) {
        Some((Escape::Unicode, 6))
    } else if is_unicode_escape(s, CH_UPPER_U, 8) {
        Some((Escape::UnicodeLarge, 10))
    } else if s.len() >= 2 {
        Some((Escape::Unknown, 1 + scalar_width(s[1])))
    } else {
        Some((Escape::UnEscaped, 1))
    }
}

fn lex_escape(input: &[u8]) -> (r: Option<(Escape, usize)>)
    ensures
        r matches Some((kind, n)) ==> escape_token(input@) == Some((kind, n as int)) && 0 < n,
        r matches Some((kind, n)) ==> kind != Escape::Unknown && kind != Escape::UnEscaped ==> n
            <= input@.len() && input@[n - 1] < 0x80,
        r is None ==> escape_token(input@) is None,
{
    if input.len() == 0 {
        return None;
    }
    let first = input[0];
    if first != CH_BACKSLASH {
        return Some((Escape::UnEscaped, utf8_width(first)));
    }
    if input.len() >= 2 {
        let second = input[1];
        if second == CH_LOWER_B {
            return Some((Escape::Backspace, 2));
        } else if second == CH_LOWER_T {
            return Some((Escape::Tab, 2));
        } else if second == CH_LOWER_N {
            return Some((Escape::LineFeed, 2));
        } else if second == CH_LOWER_F {
            return Some((Escape::FormFeed, 2));
        } else if second == CH_LOWER_R {
            return Some((Escape::CarriageReturn, 2));
        } else if second == CH_QUOTE {
            return Some((Escape::Quote, 2));
        } else if second == CH_BACKSLASH {
            return Some((Escape::Backslash, 2));
        }
    }
    let blanks: usize = count_run(input, 1, ByteClass::Whitespace);
    if 1 + blanks < input.len() && input[1 + blanks] == CH_LF {
        return Some((Escape::Newline, blanks + 2));
    }
    if 1 + blanks < input.len() - 1 && input[1 + blanks] == CH_CR && input[2 + blanks] == CH_LF {
        return Some((Escape::Newline, blanks + 3));
    }
    if input.len() >= 6 && input[1] == CH_LOWER_U && all_in_class(input, 2, 6, ByteClass::HexBody) {
        return Some((Escape::Unicode, 6));
    }
    if input.len() >= 10 && input[1] == CH_UPPER_U && all_in_class(
        input,
        2,
        10,
        ByteClass::HexBody,
    ) {
        return Some((Escape::UnicodeLarge, 10));
    }
    if input.len() >= 2 {
        return Some((Escape::Unknown, 1 + utf8_width(input[1])));
    }
    Some((Escape::UnEscaped, 1))
}

/// The number of bytes of the character whose first byte is `first`.
pub fn utf8_width(first: u8) -> (n: usize)
    ensures
        n == scalar_width(first),
{
    if first < 0x80 {
        1
    } else if first < 0xE0 {
        2
    } else if first < 0xF0 {
        3
    } else {
        4
    }
}

impl<'source> LexerToken<'source> for Escape {
    open spec fn lex_spec(input: Seq<u8>) -> Option<(Self, int)> {
        escape_token(input)
    }

    fn lex(input: &'source str) -> (r: Option<(Self, usize)>) {
        let found = lex_escape(input.as_bytes());
        proof {
            let bytes = input.spec_bytes();
            lemma_str_bytes_valid(input);
            if let Some((kind, n)) = found {
                if kind == Escape::UnEscaped {
                    lemma_boundary_step(bytes, 0);
                } else if kind == Escape::Unknown {
                    lemma_boundary_after_ascii(bytes, 1);
                    lemma_boundary_step(bytes, 1);
                } else {
                    lemma_boundary_after_ascii(bytes, n as int);
                }
            }
        }
        found
    }
}

/// The number that the hexadecimal digit `b` stands for; 0 for any other byte.
pub open spec fn hex_digit_value(b: u8) -> int {
    if is_digit(b) {
        b - CH_ZERO
    } else if CH_LOWER_A <= b <= CH_LOWER_F {
        b - CH_LOWER_A + 10
    } else if CH_UPPER_A <= b <= CH_UPPER_F {
        b - CH_UPPER_A + 10
    } else {
        0
    }
}

/// The number that the hexadecimal digits of `s[from..to]` write.
pub open spec fn hex_value(s: Seq<u8>, from: int, to: int) -> int
    decreases to - from,
{
    if to <= from {
        0
    } else {
        hex_value(s, from, to - 1) * 16 + hex_digit_value(s[to - 1])
    }
}

/// Whether every byte of `s[from..to]` is a hexadecimal digit.
pub open spec fn is_hex_number(s: Seq<u8>, from: int, to: int) -> bool {
    forall|j: int| from <= j < to ==> is_hex_digit(#[trigger] s[j])
}

/// Whether `v` is a Unicode scalar value: a code point that is no surrogate.
pub open spec fn is_scalar_value(v: int) -> bool {
    0 <= v <= 0x10FFFF && !(0xD800 <= v <= 0xDFFF)
}

/// Whether the escape of kind `kind` and length `n` that `s` starts with is invalid: an
/// unknown escape, or a unicode escape whose digits hold `_` or name no scalar value.
pub open spec fn is_invalid_escape(s: Seq<u8>, kind: Escape, n: int) -> bool {
    match kind {
        Escape::Unknown => true,
        Escape::Unicode | Escape::UnicodeLarge => !(is_hex_number(s, 2, n) && is_scalar_value(
            hex_value(s, 2, n),
        )),
        _ => false,
    }
}

/// The offsets of the invalid escapes of `s`, in ascending order, when `s` is read from
/// offset `pos` on.
pub open spec fn invalid_escapes(s: Seq<u8>, pos: int) -> Seq<usize>
    decreases s.len() - pos,
{
    if pos < 0 || pos >= s.len() {
        Seq::empty()
    } else {
        match escape_token(s.skip(pos)) {
            Some((kind, n)) => {
                let here = if is_invalid_escape(s.skip(pos), kind, n) {
                    seq![pos as usize]
                } else {
                    Seq::empty()
                };
                if 0 < n && pos + n <= s.len() {
                    here + invalid_escapes(s, pos + n)
                } else {
                    here
                }
            },
            None => Seq::empty(),
        }
    }
}

/// Whether an escape or a plain character starts at offset `p`, when `s` is read from
/// offset `from` on.
pub open spec fn starts_at(s: Seq<u8>, from: int, p: int) -> bool
    decreases s.len() - from,
{
    if from < 0 || from >= s.len() || p < from {
        false
    } else if p == from {
        true
    } else {
        match escape_token(s.skip(from)) {
            Some((_, n)) => 0 < n && from + n <= s.len() && starts_at(s, from + n, p),
            None => false,
        }
    }
}

/// Whether an invalid escape starts at offset `p` of `s`.
pub open spec fn is_invalid_at(s: Seq<u8>, p: int) -> bool {
    escape_token(s.skip(p)) matches Some((kind, n)) && is_invalid_escape(s.skip(p), kind, n)
}

/// Every invalid escape is reported, once and in order: the offsets are ascending, and an
/// offset is among them if and only if an invalid escape starts there.
pub proof fn lemma_invalid_escapes_complete(s: Seq<u8>, from: int)
    requires
        0 <= from,
        s.len() <= usize::MAX,
    ensures
        forall|p: usize|
            #![trigger invalid_escapes(s, from).contains(p)]
            #![trigger starts_at(s, from, p as int)]
            invalid_escapes(s, from).contains(p) <==> starts_at(s, from, p as int)
                && is_invalid_at(s, p as int),
        forall|k: int|
            0 <= k < invalid_escapes(s, from).len() ==> from <= #[trigger] invalid_escapes(
                s,
                from,
            )[k] < s.len(),
        forall|j: int, k: int|
            0 <= j < k < invalid_escapes(s, from).len() ==> invalid_escapes(s, from)[j]
                < invalid_escapes(s, from)[k],
    decreases s.len() - from,
{
    let all = invalid_escapes(s, from);
    if from < s.len() {
        let (kind, n) = escape_token(s.skip(from))->0;
        let here = if is_invalid_escape(s.skip(from), kind, n) {
            seq![from as usize]
        } else {
            Seq::empty()
        };
        let rest = if 0 < n && from + n <= s.len() {
            invalid_escapes(s, from + n)
        } else {
            Seq::empty()
        };
        if 0 < n && from + n <= s.len() {
            lemma_invalid_escapes_complete(s, from + n);
        }
        assert(all =~= here + rest);
        assert forall|p: usize| all.contains(p) implies starts_at(s, from, p as int)
            && is_invalid_at(s, p as int) by {
            let k = choose|k: int| 0 <= k < all.len() && all[k] == p;
            if k >= here.len() {
                let tail = invalid_escapes(s, from + n);
                assert(tail[k - here.len()] == p);
                assert(tail.contains(p));
                assert(from + n <= p);
                assert(starts_at(s, from + n, p as int));
                assert(starts_at(s, from, p as int));
            } else {
                assert(p == all[0]);
                assert(p as int == from);
                assert(starts_at(s, from, p as int));
                assert(is_invalid_at(s, p as int));
            }
        }
        assert forall|p: usize|
            starts_at(s, from, p as int) && is_invalid_at(s, p as int) implies all.contains(
            p,
        ) by {
            if p as int != from {
                assert(invalid_escapes(s, from + n).contains(p));
                let k = choose|k: int| 0 <= k < rest.len() && rest[k] == p;
                assert(all[here.len() + k] == p);
            } else {
                assert(all[0] == p);
            }
        }
        assert forall|k: int| 0 <= k < all.len() implies from <= #[trigger] all[k] < s.len() by {
            if k >= here.len() {
                assert(all[k] == rest[k - here.len()]);
            }
        }
        assert forall|j: int, k: int| 0 <= j < k < all.len() implies all[j] < all[k] by {
            assert(all[k] == rest[k - here.len()]);
            if j >= here.len() {
                assert(all[j] == rest[j - here.len()]);
            }
        }
    }
}

/// The number written by hexadecimal digits does not shrink as digits are added.
proof fn lemma_hex_value_grows(s: Seq<u8>, from: int, mid: int, to: int)
    requires
        from <= mid <= to,
    ensures
        0 <= hex_value(s, from, mid) <= hex_value(s, from, to),
    decreases to - mid,
{
    if mid == from {
        lemma_hex_value_nonneg(s, from, to);
    } else if mid < to {
        lemma_hex_value_grows(s, from, mid, to - 1);
    } else {
        lemma_hex_value_nonneg(s, from, to);
    }
}

proof fn lemma_hex_value_nonneg(s: Seq<u8>, from: int, to: int)
    ensures
        0 <= hex_value(s, from, to),
    decreases to - from,
{
    if to > from {
        lemma_hex_value_nonneg(s, from, to - 1);
    }
}

/// Whether the digits of a unicode escape, which start at offset 2 of `token`, are all
/// hexadecimal and name a Unicode scalar value.
pub fn names_scalar_value(token: &[u8]) -> (r: bool)
    requires
        2 <= token@.len(),
    ensures
        r == (is_hex_number(token@, 2, token@.len() as int) && is_scalar_value(
            hex_value(token@, 2, token@.len() as int),
        )),
{
    let mut value: u32 = 0;
    let mut i: usize = 2;
    while i < token.len()
        invariant
            2 <= i <= token@.len(),
            is_hex_number(token@, 2, i as int),
            value == hex_value(token@, 2, i as int),
            value <= 0x10FFFF,
        decreases token@.len() - i,
    {
        let b = token[i];
        let digit: u32 = if is_digit(b) {
            (b - CH_ZERO) as u32
        } else if CH_LOWER_A <= b && b <= CH_LOWER_F {
            (b - CH_LOWER_A) as u32 + 10
        } else if CH_UPPER_A <= b && b <= CH_UPPER_F {
            (b - CH_UPPER_A) as u32 + 10
        } else {
            return false;
        };
        value = value * 16 + digit;
        i += 1;
        if value > 0x10FFFF {
            proof {
                lemma_hex_value_grows(token@, 2, i as int, token@.len() as int);
            }
            return false;
        }
    }
    !(0xD800 <= value && value <= 0xDFFF)
}

/// Checks the escape sequences of the body of a basic string: `Ok` where all are valid,
/// else the offsets of all invalid ones, in ascending order.
pub fn check_escape(s: &str) -> (r: Result<(), Vec<usize>>)
    ensures
        r is Ok <==> invalid_escapes(s.spec_bytes(), 0).len() == 0,
        r matches Err(found) ==> found@ == invalid_escapes(s.spec_bytes(), 0),
{
    let mut lexer: Lexer<Escape> = Lexer::new(s);
    let mut invalid: Vec<usize> = Vec::new();
    let ghost bytes = s.spec_bytes();
    loop
        invariant
            lexer.bytes() == bytes,
            0 <= lexer.position() <= bytes.len(),
            invalid@ + invalid_escapes(bytes, lexer.position()) == invalid_escapes(bytes, 0),
        ensures
            invalid@ == invalid_escapes(bytes, 0),
        decreases bytes.len() - lexer.position(),
    {
        let ghost before = lexer.position();
        let ghost reported = invalid@;
        let kind = match lexer.next() {
            None => { break ; },
            Some(Ok(kind)) => kind,
            Some(Err(_)) => Escape::UnEscaped,
        };
        let span = lexer.span();
        match kind {
            Escape::Unicode | Escape::UnicodeLarge => {
                let text = lexer.slice().as_bytes();
                assert(text@ =~= bytes.skip(before).subrange(0, span.end - span.start));
                assert(is_hex_number(text@, 2, text@.len() as int) == is_hex_number(
                    bytes.skip(before),
                    2,
                    text@.len() as int,
                )) by {
                    assert forall|j: int| 2 <= j < text@.len() implies text@[j] == bytes.skip(
                        before,
                    )[j] by {}
                }
                proof {
                    lemma_hex_value_prefix(text@, bytes.skip(before), 2, text@.len() as int);
                }
                if !names_scalar_value(text) {
                    invalid.push(span.start);
                }
            },
            Escape::Unknown => {
                invalid.push(span.start);
            },
            _ => {},
        }
        assert(invalid@ + invalid_escapes(bytes, lexer.position()) =~= reported
            + invalid_escapes(bytes, before));
    }
    if invalid.len() == 0 {
        Ok(())
    } else {
        Err(invalid)
    }
}

/// The number written by digits depends on those digits alone.
proof fn lemma_hex_value_prefix(a: Seq<u8>, b: Seq<u8>, from: int, to: int)
    requires
        0 <= from <= to <= a.len(),
        to <= b.len(),
        forall|j: int| from <= j < to ==> a[j] == b[j],
    ensures
        hex_value(a, from, to) == hex_value(b, from, to),
    decreases to - from,
{
    if to > from {
        lemma_hex_value_prefix(a, b, from, to - 1);
    }
}

} // verus!
