//! Byte classes and runs of bytes: the vocabulary in which the token grammar is stated.

use vstd::prelude::*;

verus! {

pub const CH_TAB: u8 = 0x09;

pub const CH_LF: u8 = 0x0A;

pub const CH_CR: u8 = 0x0D;

pub const CH_SPACE: u8 = 0x20;

pub const CH_QUOTE: u8 = 0x22;

pub const CH_HASH: u8 = 0x23;

pub const CH_APOSTROPHE: u8 = 0x27;

pub const CH_ASTERISK: u8 = 0x2A;

pub const CH_PLUS: u8 = 0x2B;

pub const CH_COMMA: u8 = 0x2C;

pub const CH_MINUS: u8 = 0x2D;

pub const CH_PERIOD: u8 = 0x2E;

pub const CH_ZERO: u8 = 0x30;

pub const CH_ONE: u8 = 0x31;

pub const CH_SEVEN: u8 = 0x37;

pub const CH_NINE: u8 = 0x39;

pub const CH_COLON: u8 = 0x3A;

pub const CH_EQUALS: u8 = 0x3D;

pub const CH_QUESTION: u8 = 0x3F;

pub const CH_UPPER_A: u8 = 0x41;

pub const CH_UPPER_E: u8 = 0x45;

pub const CH_UPPER_F: u8 = 0x46;

pub const CH_UPPER_T: u8 = 0x54;

pub const CH_UPPER_U: u8 = 0x55;

pub const CH_UPPER_Z: u8 = 0x5A;

pub const CH_BRACKET_OPEN: u8 = 0x5B;

pub const CH_BACKSLASH: u8 = 0x5C;

pub const CH_BRACKET_CLOSE: u8 = 0x5D;

pub const CH_UNDERSCORE: u8 = 0x5F;

pub const CH_LOWER_A: u8 = 0x61;

pub const CH_LOWER_B: u8 = 0x62;

pub const CH_LOWER_E: u8 = 0x65;

pub const CH_LOWER_F: u8 = 0x66;

pub const CH_LOWER_I: u8 = 0x69;

pub const CH_LOWER_L: u8 = 0x6C;

pub const CH_LOWER_N: u8 = 0x6E;

pub const CH_LOWER_O: u8 = 0x6F;

pub const CH_LOWER_R: u8 = 0x72;

pub const CH_LOWER_S: u8 = 0x73;

pub const CH_LOWER_T: u8 = 0x74;

pub const CH_LOWER_U: u8 = 0x75;

pub const CH_LOWER_X: u8 = 0x78;

pub const CH_LOWER_Z: u8 = 0x7A;

pub const CH_BRACE_OPEN: u8 = 0x7B;

pub const CH_BRACE_CLOSE: u8 = 0x7D;

pub const CH_DELETE: u8 = 0x7F;

/// A set of bytes that a token may be made of.
#[derive(Clone, Copy, Debug)]
pub enum ByteClass {
    /// Space or tab.
    Whitespace,
    /// The line feed alone.
    LineFeed,
    /// Anything but a line feed or a carriage return.
    NotLineBreak,
    /// A letter, a digit, `_` or `-`.
    Ident,
    /// An identifier byte, `*` or `?`.
    IdentGlob,
    /// `0` to `9`.
    Digit,
    /// A decimal digit or `_`.
    DecimalBody,
    /// A hexadecimal digit or `_`.
    HexBody,
    /// `0` to `7` or `_`.
    OctalBody,
    /// `0`, `1` or `_`.
    BinaryBody,
    /// A hexadecimal digit.
    HexDigit,
    /// `0` to `7`.
    OctalDigit,
    /// `0` or `1`.
    BinaryDigit,
    /// The double quote.
    Quote,
    /// The single quote.
    Apostrophe,
}

pub open spec fn spec_is_digit(b: u8) -> bool {
    CH_ZERO <= b <= CH_NINE
}

pub open spec fn spec_is_alpha(b: u8) -> bool {
    (CH_UPPER_A <= b <= CH_UPPER_Z) || (CH_LOWER_A <= b <= CH_LOWER_Z)
}

pub open spec fn spec_is_whitespace(b: u8) -> bool {
    b == CH_SPACE || b == CH_TAB
}

pub open spec fn spec_is_ident_char(b: u8) -> bool {
    spec_is_alpha(b) || spec_is_digit(b) || b == CH_UNDERSCORE || b == CH_MINUS
}

pub open spec fn spec_is_ident_with_glob_char(b: u8) -> bool {
    spec_is_ident_char(b) || b == CH_ASTERISK || b == CH_QUESTION
}

pub open spec fn spec_is_hex_digit(b: u8) -> bool {
    spec_is_digit(b) || (CH_UPPER_A <= b <= CH_UPPER_F) || (CH_LOWER_A <= b <= CH_LOWER_F)
}

#[verifier::when_used_as_spec(spec_is_digit)]
pub fn is_digit(b: u8) -> (r: bool)
    ensures
        r == spec_is_digit(b),
{
    CH_ZERO <= b && b <= CH_NINE
}

#[verifier::when_used_as_spec(spec_is_whitespace)]
pub fn is_whitespace(b: u8) -> (r: bool)
    ensures
        r == spec_is_whitespace(b),
{
    b == CH_SPACE || b == CH_TAB
}

#[verifier::when_used_as_spec(spec_is_ident_char)]
pub fn is_ident_char(b: u8) -> (r: bool)
    ensures
        r == spec_is_ident_char(b),
{
    (CH_UPPER_A <= b && b <= CH_UPPER_Z) || (CH_LOWER_A <= b && b <= CH_LOWER_Z) || is_digit(b)
        || b == CH_UNDERSCORE || b == CH_MINUS
}

#[verifier::when_used_as_spec(spec_is_ident_with_glob_char)]
pub fn is_ident_with_glob_char(b: u8) -> (r: bool)
    ensures
        r == spec_is_ident_with_glob_char(b),
{
    is_ident_char(b) || b == CH_ASTERISK || b == CH_QUESTION
}

#[verifier::when_used_as_spec(spec_is_hex_digit)]
pub fn is_hex_digit(b: u8) -> (r: bool)
    ensures
        r == spec_is_hex_digit(b),
{
    is_digit(b) || (CH_UPPER_A <= b && b <= CH_UPPER_F) || (CH_LOWER_A <= b && b <= CH_LOWER_F)
}

impl ByteClass {
    /// Whether `b` belongs to the class.
    pub open spec fn holds(self, b: u8) -> bool {
        match self {
            ByteClass::Whitespace => is_whitespace(b),
            ByteClass::LineFeed => b == CH_LF,
            ByteClass::NotLineBreak => b != CH_LF && b != CH_CR,
            ByteClass::Ident => is_ident_char(b),
            ByteClass::IdentGlob => is_ident_with_glob_char(b),
            ByteClass::Digit => is_digit(b),
            ByteClass::DecimalBody => is_digit(b) || b == CH_UNDERSCORE,
            ByteClass::HexBody => is_hex_digit(b) || b == CH_UNDERSCORE,
            ByteClass::OctalBody => (CH_ZERO <= b <= CH_SEVEN) || b == CH_UNDERSCORE,
            ByteClass::BinaryBody => b == CH_ZERO || b == CH_ONE || b == CH_UNDERSCORE,
            ByteClass::HexDigit => is_hex_digit(b),
            ByteClass::OctalDigit => CH_ZERO <= b <= CH_SEVEN,
            ByteClass::BinaryDigit => b == CH_ZERO || b == CH_ONE,
            ByteClass::Quote => b == CH_QUOTE,
            ByteClass::Apostrophe => b == CH_APOSTROPHE,
        }
    }

    /// Tells whether `b` belongs to the class.
    pub fn test(self, b: u8) -> (r: bool)
        ensures
            r == self.holds(b),
    {
        match self {
            ByteClass::Whitespace => is_whitespace(b),
            ByteClass::LineFeed => b == CH_LF,
            ByteClass::NotLineBreak => b != CH_LF && b != CH_CR,
            ByteClass::Ident => is_ident_char(b),
            ByteClass::IdentGlob => is_ident_with_glob_char(b),
            ByteClass::Digit => is_digit(b),
            ByteClass::DecimalBody => is_digit(b) || b == CH_UNDERSCORE,
            ByteClass::HexBody => is_hex_digit(b) || b == CH_UNDERSCORE,
            ByteClass::OctalBody => (CH_ZERO <= b && b <= CH_SEVEN) || b == CH_UNDERSCORE,
            ByteClass::BinaryBody => b == CH_ZERO || b == CH_ONE || b == CH_UNDERSCORE,
            ByteClass::HexDigit => is_hex_digit(b),
            ByteClass::OctalDigit => CH_ZERO <= b && b <= CH_SEVEN,
            ByteClass::BinaryDigit => b == CH_ZERO || b == CH_ONE,
            ByteClass::Quote => b == CH_QUOTE,
            ByteClass::Apostrophe => b == CH_APOSTROPHE,
        }
    }
}

/// The length of the longest run of bytes of class `c` that starts at offset `from`.
pub open spec fn run_len(s: Seq<u8>, from: int, c: ByteClass) -> nat
    decreases s.len() - from,
{
    if 0 <= from < s.len() && c.holds(s[from]) {
        1 + run_len(s, from + 1, c)
    } else {
        0
    }
}

/// A run is made of bytes of its class, and is not followed by one.
pub proof fn lemma_run_len(s: Seq<u8>, from: int, c: ByteClass)
    requires
        0 <= from <= s.len(),
    ensures
        from + run_len(s, from, c) <= s.len(),
        forall|j: int| from <= j < from + run_len(s, from, c) ==> c.holds(#[trigger] s[j]),
        from + run_len(s, from, c) < s.len() ==> !c.holds(s[from + run_len(s, from, c)]),
    decreases s.len() - from,
{
    if from < s.len() && c.holds(s[from]) {
        lemma_run_len(s, from + 1, c);
    }
}

/// Counts the bytes of class `c` from offset `from` up to the first byte outside it.
pub fn count_run(bytes: &[u8], from: usize, c: ByteClass) -> (n: usize)
    requires
        from <= bytes@.len(),
    ensures
        n == run_len(bytes@, from as int, c),
        from + n <= bytes@.len(),
{
    let mut i: usize = from;
    while i < bytes.len() && c.test(bytes[i])
        invariant
            from <= i <= bytes@.len(),
            run_len(bytes@, from as int, c) == (i - from) + run_len(bytes@, i as int, c),
        decreases bytes@.len() - i,
    {
        i += 1;
    }
    i - from
}

/// Whether every byte of `bytes[from..to]` is of class `c`.
pub fn all_in_class(bytes: &[u8], from: usize, to: usize, c: ByteClass) -> (r: bool)
    requires
        from <= to <= bytes@.len(),
    ensures
        r == (forall|j: int| from <= j < to ==> c.holds(#[trigger] bytes@[j])),
{
    let mut i: usize = from;
    while i < to
        invariant
            from <= i <= to <= bytes@.len(),
            forall|j: int| from <= j < i ==> c.holds(#[trigger] bytes@[j]),
        decreases to - i,
    {
        if !c.test(bytes[i]) {
            return false;
        }
        i += 1;
    }
    true
}

/// Whether some byte of `s[from..to]` is of class `c`.
pub open spec fn has_in_class(s: Seq<u8>, from: int, to: int, c: ByteClass) -> bool {
    exists|j: int| from <= j < to && c.holds(#[trigger] s[j])
}

/// Tells whether some byte of `bytes[from..to]` is of class `c`.
pub fn any_in_class(bytes: &[u8], from: usize, to: usize, c: ByteClass) -> (r: bool)
    requires
        from <= to <= bytes@.len(),
    ensures
        r == has_in_class(bytes@, from as int, to as int, c),
{
    let mut i: usize = from;
    while i < to
        invariant
            from <= i <= to <= bytes@.len(),
            forall|j: int| from <= j < i ==> !c.holds(#[trigger] bytes@[j]),
        decreases to - i,
    {
        if c.test(bytes[i]) {
            return true;
        }
        i += 1;
    }
    false
}

/// Whether `s` holds the three bytes `a`, `b` and `c` from offset `at` on.
pub open spec fn has_three(s: Seq<u8>, at: int, a: u8, b: u8, c: u8) -> bool {
    0 <= at && at + 3 <= s.len() && s[at] == a && s[at + 1] == b && s[at + 2] == c
}

/// Tells whether `bytes` holds the three bytes `a`, `b` and `c` from offset `at` on.
pub fn holds_three(bytes: &[u8], at: usize, a: u8, b: u8, c: u8) -> (r: bool)
    ensures
        r == has_three(bytes@, at as int, a, b, c),
{
    at <= bytes.len() && bytes.len() - at >= 3 && bytes[at] == a && bytes[at + 1] == b && bytes[at
        + 2] == c
}

} // verus!
