//! Rules on the text of single tokens that the token grammar does not enforce.

use crate::scan::{
    has_three, holds_three, is_digit, is_ident_char, spec_is_digit, spec_is_ident_char, ByteClass,
    CH_LOWER_A, CH_LOWER_F, CH_LOWER_I, CH_LOWER_N, CH_MINUS, CH_PERIOD, CH_PLUS, CH_UNDERSCORE,
    CH_ZERO,
};
use vstd::prelude::*;

verus! {

/// Every `_` from offset `from` on stands between two digits of class `digit`.
pub open spec fn underscores_separate_digits(s: Seq<u8>, from: int, digit: ByteClass) -> bool {
    forall|i: int|
        from <= i < s.len() && #[trigger] s[i] == CH_UNDERSCORE ==> {
            &&& from < i
            &&& digit.holds(s[i - 1])
            &&& i + 1 < s.len()
            &&& digit.holds(s[i + 1])
        }
}

/// Tells whether every `_` of `text[from..]` stands between two digits of class `digit`.
pub fn check_underscores(text: &[u8], from: usize, digit: ByteClass) -> (r: bool)
    requires
        from <= text@.len(),
    ensures
        r == underscores_separate_digits(text@, from as int, digit),
{
    let mut i: usize = from;
    while i < text.len()
        invariant
            from <= i <= text@.len(),
            forall|j: int|
                from <= j < i && #[trigger] text@[j] == CH_UNDERSCORE ==> {
                    &&& from < j
                    &&& digit.holds(text@[j - 1])
                    &&& j + 1 < text@.len()
                    &&& digit.holds(text@[j + 1])
                },
        decreases text@.len() - i,
    {
        if text[i] == CH_UNDERSCORE {
            if i == from || !digit.test(text[i - 1]) || i + 1 >= text.len() || !digit.test(
                text[i + 1],
            ) {
                return false;
            }
        }
        i += 1;
    }
    true
}

/// The number of bytes that the sign of a number takes: 1 where `s` starts with `+` or `-`.
pub open spec fn sign_len(s: Seq<u8>) -> int {
    if s.len() > 0 && (s[0] == CH_PLUS || s[0] == CH_MINUS) {
        1
    } else {
        0
    }
}

/// The whole part of the decimal number `s` starts with a zero that is not all of it.
pub open spec fn is_zero_padded(s: Seq<u8>) -> bool {
    let k = sign_len(s);
    k + 1 < s.len() && s[k] == CH_ZERO && (is_digit(s[k + 1]) || s[k + 1] == CH_UNDERSCORE)
}

/// Tells whether the whole part of a decimal number starts with a needless zero.
pub fn zero_padded(text: &[u8]) -> (r: bool)
    ensures
        r == is_zero_padded(text@),
{
    let k: usize = if text.len() > 0 && (text[0] == CH_PLUS || text[0] == CH_MINUS) {
        1
    } else {
        0
    };
    k < text.len() && k + 1 < text.len() && text[k] == CH_ZERO && (is_digit(text[k + 1])
        || text[k + 1] == CH_UNDERSCORE)
}

/// Whether the text of a token can stand as a bare key, or as several with periods
/// between them: letters, digits, `_` and `-`, and single periods inside.
pub open spec fn is_bare_key_text(s: Seq<u8>) -> bool {
    &&& s.len() > 0
    &&& s[0] != CH_PERIOD
    &&& s[s.len() - 1] != CH_PERIOD
    &&& forall|i: int| 0 <= i < s.len() ==> is_ident_char(#[trigger] s[i]) || s[i] == CH_PERIOD
    &&& forall|i: int|
        0 <= i && i + 1 < s.len() && #[trigger] s[i] == CH_PERIOD ==> s[i + 1] != CH_PERIOD
}

/// Tells whether the text of a token can stand as a bare key.
pub fn bare_key_text(text: &[u8]) -> (r: bool)
    ensures
        r == is_bare_key_text(text@),
{
    if text.len() == 0 || text[0] == CH_PERIOD || text[text.len() - 1] == CH_PERIOD {
        return false;
    }
    let mut i: usize = 0;
    while i < text.len()
        invariant
            i <= text@.len(),
            forall|j: int|
                0 <= j < i ==> is_ident_char(#[trigger] text@[j]) || text@[j] == CH_PERIOD,
            forall|j: int|
                0 <= j < i && j + 1 < text@.len() && #[trigger] text@[j] == CH_PERIOD ==> text@[j
                    + 1] != CH_PERIOD,
        decreases text@.len() - i,
    {
        let b = text[i];
        if b == CH_PERIOD {
            if i + 1 < text.len() && text[i + 1] == CH_PERIOD {
                return false;
            }
        } else if !is_ident_char(b) {
            return false;
        }
        i += 1;
    }
    true
}

/// Whether `s` is `nan` or `inf`.
pub open spec fn is_special_float_word(s: Seq<u8>) -> bool {
    s.len() == 3 && (has_three(s, 0, CH_LOWER_N, CH_LOWER_A, CH_LOWER_N) || has_three(
        s,
        0,
        CH_LOWER_I,
        CH_LOWER_N,
        CH_LOWER_F,
    ))
}

/// Tells whether `text` is `nan` or `inf`.
pub fn special_float_word(text: &[u8]) -> (r: bool)
    ensures
        r == is_special_float_word(text@),
{
    text.len() == 3 && (holds_three(text, 0, CH_LOWER_N, CH_LOWER_A, CH_LOWER_N) || holds_three(
        text,
        0,
        CH_LOWER_I,
        CH_LOWER_N,
        CH_LOWER_F,
    ))
}

} // verus!
