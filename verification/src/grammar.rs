//! The grammar of a document, over the tokens of its text.
//!
//! Each function here reads one construct of the grammar from an offset into the text and
//! gives the offset at which the construct ends, or `None` where the text holds no such
//! construct there. Blanks and comments may stand before every token.

use crate::literal::{
    is_bare_key_text, is_special_float_word, is_zero_padded, underscores_separate_digits,
};
use crate::scan::{ByteClass, CH_BRACKET_CLOSE, CH_BRACKET_OPEN};
use crate::syntax::{lex_token, SyntaxKind};
use crate::text::scalar_width;
use crate::tree::{TextRange, Token};
use crate::util::allowed_chars::disallowed_offsets;
use crate::util::escape::invalid_escapes;
use vstd::prelude::*;

verus! {

/// What comes next in a text, blanks and comments apart.
pub enum Next {
    /// A character that starts no token, or a comment with a control character that it
    /// may not hold.
    Bad,
    /// The end of the text.
    End,
    /// A token, from offset `start` to offset `end`.
    Token { kind: SyntaxKind, start: int, end: int },
}

impl Next {
    /// Whether a token of kind `kind` comes next.
    pub open spec fn is_token(self, kind: SyntaxKind) -> bool {
        match self {
            Next::Token { kind: found, .. } => found == kind,
            _ => false,
        }
    }

    /// The offset at which the token that comes next ends.
    pub open spec fn token_end(self) -> int {
        match self {
            Next::Token { end, .. } => end,
            _ => 0,
        }
    }

    /// The offset at which the token that comes next starts.
    pub open spec fn token_start(self) -> int {
        match self {
            Next::Token { start, .. } => start,
            _ => 0,
        }
    }
}

/// The kind and the length of the token that starts at offset `pos`: an `ERROR` of one
/// character where no token starts there.
pub open spec fn token_at(bytes: Seq<u8>, pos: int) -> (SyntaxKind, int) {
    match lex_token(bytes.skip(pos)) {
        Some((kind, n)) => (kind, n),
        None => (SyntaxKind::ERROR, scalar_width(bytes[pos])),
    }
}

/// Whether `text` holds no control character that a text on one line, or on several
/// where `multi_line` is set, may not hold.
pub open spec fn is_clean_text(text: Seq<u8>, multi_line: bool) -> bool {
    disallowed_offsets(text, text.len() as int, multi_line).len() == 0
}

/// What comes next in `bytes` from offset `pos` on, blanks and comments apart.
pub open spec fn next_token(bytes: Seq<u8>, pos: int) -> Next
    decreases bytes.len() - pos,
{
    if pos < 0 || pos >= bytes.len() {
        Next::End
    } else {
        let (kind, n) = token_at(bytes, pos);
        if n <= 0 || pos + n > bytes.len() {
            Next::Bad
        } else if kind == SyntaxKind::WHITESPACE {
            next_token(bytes, pos + n)
        } else if kind == SyntaxKind::COMMENT {
            if is_clean_text(bytes.subrange(pos, pos + n), false) {
                next_token(bytes, pos + n)
            } else {
                Next::Bad
            }
        } else if kind == SyntaxKind::ERROR {
            Next::Bad
        } else {
            Next::Token { kind, start: pos, end: pos + n }
        }
    }
}

/// A token that comes next starts no earlier than where the search began, holds at least
/// one byte, and ends in the text.
pub proof fn lemma_next_token_bounds(bytes: Seq<u8>, pos: int)
    requires
        0 <= pos,
    ensures
        next_token(bytes, pos) matches Next::Token { kind, start, end } ==> pos <= start < end
            <= bytes.len() && token_at(bytes, start) == (kind, end - start) && kind
            != SyntaxKind::WHITESPACE && kind != SyntaxKind::COMMENT && kind != SyntaxKind::ERROR
            && next_token(bytes, start) == next_token(bytes, pos),
    decreases bytes.len() - pos,
{
    if pos < bytes.len() {
        let (kind, n) = token_at(bytes, pos);
        if 0 < n && pos + n <= bytes.len() {
            if kind == SyntaxKind::WHITESPACE || kind == SyntaxKind::COMMENT {
                lemma_next_token_bounds(bytes, pos + n);
            }
        }
    }
}

/// Whether the parser may give the kind `kind` to a token in which the lexer found one of
/// kind `found`: the same kind; `ERROR`, where the token cannot stand where it stands; or
/// `FLOAT`, where a bare `nan` or `inf` stands as a value.
pub open spec fn may_relabel(found: SyntaxKind, kind: SyntaxKind) -> bool {
    ||| kind == found
    ||| kind == SyntaxKind::ERROR
    ||| (kind == SyntaxKind::FLOAT && found == SyntaxKind::IDENT)
}

/// Whether `token` is a token of the lexer: where it starts, the lexer finds a token of its
/// length, and of its kind or of one for which its kind may stand.
pub open spec fn is_lexed(bytes: Seq<u8>, token: Token) -> bool {
    &&& token.span.start < token.span.end <= bytes.len()
    &&& token_at(bytes, token.span.start as int).1 == token.span.end - token.span.start
    &&& may_relabel(token_at(bytes, token.span.start as int).0, token.kind)
}

/// The property of being a token that the lexer finds in `bytes`.
pub open spec fn lexed_in(bytes: Seq<u8>) -> spec_fn(SyntaxKind, Token) -> bool {
    |parent: SyntaxKind, token: Token| is_lexed(bytes, token)
}

/// Whether a token of kind `kind` may be a child of a node of kind `parent` in the tree of
/// a valid document. Blanks and comments may stand anywhere.
pub open spec fn fits_in(parent: SyntaxKind, kind: SyntaxKind) -> bool {
    if kind == SyntaxKind::WHITESPACE || kind == SyntaxKind::COMMENT {
        true
    } else if parent == SyntaxKind::ROOT {
        kind == SyntaxKind::NEWLINE
    } else if parent == SyntaxKind::ENTRY {
        kind == SyntaxKind::EQ
    } else if parent == SyntaxKind::KEY {
        kind == SyntaxKind::IDENT || kind == SyntaxKind::PERIOD || is_key_like(kind) || kind
            == SyntaxKind::STRING || kind == SyntaxKind::STRING_LITERAL
    } else if parent == SyntaxKind::VALUE {
        is_plain_scalar(kind) || kind == SyntaxKind::INTEGER || kind == SyntaxKind::INTEGER_HEX
            || kind == SyntaxKind::INTEGER_OCT || kind == SyntaxKind::INTEGER_BIN || kind
            == SyntaxKind::FLOAT || kind == SyntaxKind::STRING || kind
            == SyntaxKind::MULTI_LINE_STRING || kind == SyntaxKind::STRING_LITERAL || kind
            == SyntaxKind::MULTI_LINE_STRING_LITERAL
    } else if parent == SyntaxKind::ARRAY {
        kind == SyntaxKind::BRACKET_START || kind == SyntaxKind::BRACKET_END || kind
            == SyntaxKind::COMMA || kind == SyntaxKind::NEWLINE
    } else if parent == SyntaxKind::INLINE_TABLE {
        kind == SyntaxKind::BRACE_START || kind == SyntaxKind::BRACE_END || kind
            == SyntaxKind::COMMA || kind == SyntaxKind::NEWLINE
    } else if parent == SyntaxKind::TABLE_HEADER || parent == SyntaxKind::TABLE_ARRAY_HEADER {
        kind == SyntaxKind::BRACKET_START || kind == SyntaxKind::BRACKET_END
    } else {
        false
    }
}

/// The property of being a token that stands where a token of its kind may stand in the
/// tree of a valid document.
pub open spec fn well_placed() -> spec_fn(SyntaxKind, Token) -> bool {
    |parent: SyntaxKind, token: Token| fits_in(parent, token.kind)
}

/// Whether a string token of kind `kind` holds what it may: no control character that
/// its kind does not allow and, in a basic string, valid escapes only.
pub open spec fn is_valid_string(kind: SyntaxKind, text: Seq<u8>) -> bool {
    if kind == SyntaxKind::STRING {
        is_clean_text(text, false) && invalid_escapes(text, 0).len() == 0
    } else if kind == SyntaxKind::MULTI_LINE_STRING {
        is_clean_text(text, true) && invalid_escapes(text, 0).len() == 0
    } else if kind == SyntaxKind::STRING_LITERAL {
        is_clean_text(text, false)
    } else if kind == SyntaxKind::MULTI_LINE_STRING_LITERAL {
        is_clean_text(text, true)
    } else {
        false
    }
}

/// Whether a number token of kind `kind` is written as TOML wants it: a decimal number
/// does not start with a needless zero, and every `_` stands between two digits.
pub open spec fn is_valid_number(kind: SyntaxKind, text: Seq<u8>) -> bool {
    if kind == SyntaxKind::INTEGER || kind == SyntaxKind::FLOAT {
        !is_zero_padded(text) && underscores_separate_digits(text, 0, ByteClass::Digit)
    } else if kind == SyntaxKind::INTEGER_HEX {
        text.len() >= 2 && underscores_separate_digits(text, 2, ByteClass::HexDigit)
    } else if kind == SyntaxKind::INTEGER_OCT {
        text.len() >= 2 && underscores_separate_digits(text, 2, ByteClass::OctalDigit)
    } else if kind == SyntaxKind::INTEGER_BIN {
        text.len() >= 2 && underscores_separate_digits(text, 2, ByteClass::BinaryDigit)
    } else {
        false
    }
}

/// Whether a token of kind `kind` is a date or a time, or `true` or `false`.
pub open spec fn is_plain_scalar(kind: SyntaxKind) -> bool {
    kind == SyntaxKind::BOOL || kind == SyntaxKind::DATE_TIME_OFFSET || kind
        == SyntaxKind::DATE_TIME_LOCAL || kind == SyntaxKind::DATE || kind == SyntaxKind::TIME
}

/// Whether a token of kind `kind` with the text `text` is a value by itself.
pub open spec fn is_scalar(kind: SyntaxKind, text: Seq<u8>) -> bool {
    ||| is_plain_scalar(kind)
    ||| is_valid_number(kind, text)
    ||| is_valid_string(kind, text)
    ||| (kind == SyntaxKind::IDENT && is_special_float_word(text))
}

/// Whether a token of kind `kind` can be read as a bare key where its text allows it.
pub open spec fn is_key_like(kind: SyntaxKind) -> bool {
    kind == SyntaxKind::INTEGER || kind == SyntaxKind::INTEGER_HEX || kind
        == SyntaxKind::INTEGER_OCT || kind == SyntaxKind::INTEGER_BIN || kind == SyntaxKind::FLOAT
        || kind == SyntaxKind::BOOL || kind == SyntaxKind::DATE
}

/// Whether a token of kind `kind` with the text `text` is a part of a key: a bare key,
/// a number, date or word that reads as one, or a valid string on one line.
pub open spec fn is_key_part(kind: SyntaxKind, text: Seq<u8>) -> bool {
    ||| kind == SyntaxKind::IDENT
    ||| (is_key_like(kind) && is_bare_key_text(text))
    ||| ((kind == SyntaxKind::STRING || kind == SyntaxKind::STRING_LITERAL) && is_valid_string(
        kind,
        text,
    ))
}

/// Where the part of a key that comes next from `pos` ends.
pub open spec fn key_part_end(bytes: Seq<u8>, pos: int) -> Option<int> {
    match next_token(bytes, pos) {
        Next::Token { kind, start, end } => if is_key_part(kind, bytes.subrange(start, end)) {
            Some(end)
        } else {
            None
        },
        _ => None,
    }
}

/// Where a key of which a part ends at `pos` ends: periods and parts in turn, as long as
/// a period comes next.
pub open spec fn key_tail_end(bytes: Seq<u8>, pos: int) -> Option<int>
    decreases bytes.len() - pos,
{
    match next_token(bytes, pos) {
        Next::Bad => None,
        Next::End => Some(pos),
        Next::Token { kind, start, end } => if kind != SyntaxKind::PERIOD {
            Some(pos)
        } else {
            match key_part_end(bytes, end) {
                Some(after) => if pos < after <= bytes.len() {
                    key_tail_end(bytes, after)
                } else {
                    None
                },
                None => None,
            }
        },
    }
}

/// Where the key that comes next from `pos` ends: one part, or several with periods
/// between them.
pub open spec fn key_end(bytes: Seq<u8>, pos: int) -> Option<int> {
    match key_part_end(bytes, pos) {
        Some(after) => key_tail_end(bytes, after),
        None => None,
    }
}

/// Where the value that comes next from `pos` ends: a scalar, an array or an inline
/// table.
pub open spec fn value_end(bytes: Seq<u8>, pos: int) -> Option<int>
    decreases bytes.len() - pos, 0int,
{
    match next_token(bytes, pos) {
        Next::Token { kind, start, end } => if !(pos < end <= bytes.len()) {
            None
        } else if kind == SyntaxKind::BRACKET_START {
            array_items_end(bytes, end, true, false)
        } else if kind == SyntaxKind::BRACE_START {
            table_items_end(bytes, end, true, false)
        } else if is_scalar(kind, bytes.subrange(start, end)) {
            Some(end)
        } else {
            None
        },
        _ => None,
    }
}

/// Where an array ends whose items are read from `pos` on: values with commas between
/// them, line breaks anywhere, and a comma after the last value where one likes. `first`
/// says that no item or comma has been read yet, `comma_last` that a comma was read last.
pub open spec fn array_items_end(bytes: Seq<u8>, pos: int, first: bool, comma_last: bool) -> Option<
    int,
>
    decreases bytes.len() - pos, 1int,
{
    match next_token(bytes, pos) {
        Next::Token { kind, start, end } => if !(pos <= start < end <= bytes.len()) {
            None
        } else if kind == SyntaxKind::BRACKET_END {
            Some(end)
        } else if kind == SyntaxKind::NEWLINE {
            array_items_end(bytes, end, first, comma_last)
        } else if kind == SyntaxKind::COMMA {
            if first || comma_last {
                None
            } else {
                array_items_end(bytes, end, false, true)
            }
        } else if !first && !comma_last {
            None
        } else {
            match value_end(bytes, start) {
                Some(after) => if start < after <= bytes.len() {
                    array_items_end(bytes, after, false, false)
                } else {
                    None
                },
                None => None,
            }
        },
        _ => None,
    }
}

/// Where an inline table ends whose entries are read from `pos` on: entries with commas
/// between them, line breaks anywhere, and a comma after the last entry where one likes.
pub open spec fn table_items_end(bytes: Seq<u8>, pos: int, first: bool, comma_last: bool) -> Option<
    int,
>
    decreases bytes.len() - pos, 2int,
{
    match next_token(bytes, pos) {
        Next::Token { kind, start, end } => if !(pos <= start < end <= bytes.len()) {
            None
        } else if kind == SyntaxKind::BRACE_END {
            Some(end)
        } else if kind == SyntaxKind::NEWLINE {
            table_items_end(bytes, end, first, comma_last)
        } else if kind == SyntaxKind::COMMA {
            if first || comma_last {
                None
            } else {
                table_items_end(bytes, end, false, true)
            }
        } else if !first && !comma_last {
            None
        } else {
            match entry_end(bytes, start) {
                Some(after) => if start < after <= bytes.len() {
                    table_items_end(bytes, after, false, false)
                } else {
                    None
                },
                None => None,
            }
        },
        _ => None,
    }
}

/// Where the entry that comes next from `pos` ends: a key, `=` and a value.
pub open spec fn entry_end(bytes: Seq<u8>, pos: int) -> Option<int>
    decreases bytes.len() - pos, 1int,
{
    match key_end(bytes, pos) {
        Some(after_key) => match next_token(bytes, after_key) {
            Next::Token { kind, start, end } => if kind == SyntaxKind::EQ {
                match next_token(bytes, end) {
                    Next::Token { kind, start, end } => if pos <= start <= bytes.len() {
                        value_end(bytes, start)
                    } else {
                        None
                    },
                    _ => None,
                }
            } else {
                None
            },
            _ => None,
        },
        None => None,
    }
}

/// Where the closing bracket ends that comes next from `pos`.
pub open spec fn closing_bracket_end(bytes: Seq<u8>, pos: int) -> Option<int> {
    match next_token(bytes, pos) {
        Next::Token { kind, start, end } => if kind == SyntaxKind::BRACKET_END {
            Some(end)
        } else {
            None
        },
        _ => None,
    }
}

/// Where the table header ends whose opening bracket ends at `pos`: a key and a closing
/// bracket.
pub open spec fn header_end(bytes: Seq<u8>, pos: int) -> Option<int> {
    match key_end(bytes, pos) {
        Some(after_key) => closing_bracket_end(bytes, after_key),
        None => None,
    }
}

/// Whether `bytes` holds the byte `b` at offset `pos`.
pub open spec fn has_byte(bytes: Seq<u8>, pos: int, b: u8) -> bool {
    0 <= pos < bytes.len() && bytes[pos] == b
}

/// Where the header of an array of tables ends whose first opening bracket ends at `pos`:
/// a second opening bracket right there, a key, and two closing brackets side by side.
pub open spec fn array_header_end(bytes: Seq<u8>, pos: int) -> Option<int> {
    if !has_byte(bytes, pos, CH_BRACKET_OPEN) {
        None
    } else {
        match header_end(bytes, pos + 1) {
            Some(after) => if has_byte(bytes, after, CH_BRACKET_CLOSE) {
                Some(after + 1)
            } else {
                None
            },
            None => None,
        }
    }
}

/// Whether `bytes` is a document from offset `pos` on: lines with an entry or a header,
/// or with nothing, on each. `line_taken` says that the line on which `pos` lies holds an
/// entry or a header before `pos`.
pub open spec fn is_document_from(bytes: Seq<u8>, pos: int, line_taken: bool) -> bool
    decreases bytes.len() - pos,
{
    match next_token(bytes, pos) {
        Next::Bad => false,
        Next::End => true,
        Next::Token { kind, start, end } => if !(pos <= start < end <= bytes.len()) {
            false
        } else if kind == SyntaxKind::NEWLINE {
            is_document_from(bytes, end, false)
        } else if line_taken {
            false
        } else {
            let after = if kind != SyntaxKind::BRACKET_START {
                entry_end(bytes, start)
            } else if has_byte(bytes, end, CH_BRACKET_OPEN) {
                array_header_end(bytes, end)
            } else {
                header_end(bytes, end)
            };
            match after {
                Some(after) => start < after <= bytes.len() && is_document_from(
                    bytes,
                    after,
                    true,
                ),
                None => false,
            }
        },
    }
}

/// Whether `bytes` is a syntactically valid document.
pub open spec fn is_valid_document(bytes: Seq<u8>) -> bool {
    is_document_from(bytes, 0, false)
}

/// Whether a token of kind `kind` starts at offset `pos`.
pub open spec fn starts_with_token(bytes: Seq<u8>, pos: int, kind: SyntaxKind) -> bool {
    next_token(bytes, pos).is_token(kind) && next_token(bytes, pos).token_start() == pos
}

/// Whether a node of kind `kind` that spans `span` holds what the grammar calls by that
/// name, from its first byte to its last. A key may have blanks and comments around it.
pub open spec fn is_construct(bytes: Seq<u8>, kind: SyntaxKind, span: TextRange) -> bool {
    let start = span.start as int;
    let end = span.end as int;
    if kind == SyntaxKind::ROOT {
        start == 0 && end == bytes.len() && is_valid_document(bytes)
    } else if kind == SyntaxKind::ENTRY {
        entry_end(bytes, start) == Some(end)
    } else if kind == SyntaxKind::KEY {
        key_end(bytes, start) is Some && key_end(bytes, start)->0 <= end && next_token(
            bytes,
            key_end(bytes, start)->0,
        ) == next_token(bytes, end)
    } else if kind == SyntaxKind::VALUE {
        value_end(bytes, start) == Some(end)
    } else if kind == SyntaxKind::ARRAY {
        starts_with_token(bytes, start, SyntaxKind::BRACKET_START) && value_end(bytes, start)
            == Some(end)
    } else if kind == SyntaxKind::INLINE_TABLE {
        starts_with_token(bytes, start, SyntaxKind::BRACE_START) && value_end(bytes, start)
            == Some(end)
    } else if kind == SyntaxKind::TABLE_HEADER {
        starts_with_token(bytes, start, SyntaxKind::BRACKET_START) && header_end(bytes, start + 1)
            == Some(end)
    } else if kind == SyntaxKind::TABLE_ARRAY_HEADER {
        starts_with_token(bytes, start, SyntaxKind::BRACKET_START) && array_header_end(
            bytes,
            start + 1,
        ) == Some(end)
    } else {
        false
    }
}

/// The property of holding what the grammar calls by the node's kind.
pub open spec fn constructs_in(bytes: Seq<u8>) -> spec_fn(SyntaxKind, TextRange) -> bool {
    |kind: SyntaxKind, span: TextRange| is_construct(bytes, kind, span)
}

/// Whether a token of the lexer starts at offset `p`, or `p` is the end of the text, when
/// the text is read token by token from offset `from` on.
pub open spec fn is_token_boundary_from(bytes: Seq<u8>, from: int, p: int) -> bool
    decreases bytes.len() - from,
{
    if from == p {
        0 <= p <= bytes.len()
    } else if 0 <= from < p && from < bytes.len() {
        let n = token_at(bytes, from).1;
        0 < n && from + n <= bytes.len() && is_token_boundary_from(bytes, from + n, p)
    } else {
        false
    }
}

/// Whether a token of the lexer starts at offset `p`, or `p` is the end of the text.
pub open spec fn is_token_boundary(bytes: Seq<u8>, p: int) -> bool {
    is_token_boundary_from(bytes, 0, p)
}

/// Where a token starts at a boundary, the token ends at a boundary.
pub proof fn lemma_token_boundary_step(bytes: Seq<u8>, from: int, p: int)
    requires
        is_token_boundary_from(bytes, from, p),
        p < bytes.len(),
        0 < token_at(bytes, p).1,
        p + token_at(bytes, p).1 <= bytes.len(),
    ensures
        is_token_boundary_from(bytes, from, p + token_at(bytes, p).1),
    decreases bytes.len() - from,
{
    if from != p {
        lemma_token_boundary_step(bytes, from + token_at(bytes, from).1, p);
    } else {
        let end = p + token_at(bytes, p).1;
        assert(is_token_boundary_from(bytes, end, end));
    }
}

/// Whether a string token of kind `kind` may run over several lines.
pub open spec fn is_multi_line(kind: SyntaxKind) -> bool {
    kind == SyntaxKind::MULTI_LINE_STRING || kind == SyntaxKind::MULTI_LINE_STRING_LITERAL
}

/// Whether a token of kind `kind` is a string.
pub open spec fn is_string(kind: SyntaxKind) -> bool {
    kind == SyntaxKind::STRING || kind == SyntaxKind::STRING_LITERAL || is_multi_line(kind)
}

/// Whether the diagnostic `message` at offset `at` tells what is wrong with the tokens
/// there. Each message stands for one fault: what the parser looked for is not what comes
/// next at `at`, or what comes next may not stand there, or the number that starts at `at`
/// is not written as TOML wants it.
pub open spec fn is_syntax_fault(bytes: Seq<u8>, at: int, message: Seq<char>) -> bool {
    let next = next_token(bytes, at);
    let (kind, n) = token_at(bytes, at);
    let text = bytes.subrange(at, at + n);
    ||| message == "unexpected token"@ && at < bytes.len() && kind == SyntaxKind::ERROR
    ||| message == "expected identifier"@ && key_part_end(bytes, at) is None
    ||| message == "expected value"@ && value_end(bytes, at) is None
    ||| message == "expected \"=\""@ && !next.is_token(SyntaxKind::EQ)
    ||| message == "expected \"]\""@ && !next.is_token(SyntaxKind::BRACKET_END)
    ||| message == "expected \"}\""@ && !next.is_token(SyntaxKind::BRACE_END)
    ||| message == "expected \"[[\""@ && !has_byte(bytes, at, CH_BRACKET_OPEN)
    ||| message == "expected \"]]\""@ && !has_byte(bytes, at, CH_BRACKET_CLOSE)
    ||| message == "expected \",\""@ && !next.is_token(SyntaxKind::COMMA)
    ||| message == "unexpected \",\""@ && next.is_token(SyntaxKind::COMMA)
    ||| message == "expected new line"@ && next is Token && !next.is_token(SyntaxKind::NEWLINE)
    ||| message == "zero-padded numbers are not allowed"@ && (kind == SyntaxKind::INTEGER || kind
        == SyntaxKind::FLOAT) && is_zero_padded(text)
    ||| message == "invalid underscores"@ && at < bytes.len() && !is_valid_number(kind, text)
}

/// Whether the diagnostic `message` at offset `at` tells what is wrong inside the token
/// that starts at offset `start`: `at` is the start of the token plus one of the offsets
/// that the validator of the token's kind gives for its text.
pub open spec fn is_content_fault(bytes: Seq<u8>, start: int, at: int, message: Seq<char>) -> bool {
    let (kind, n) = token_at(bytes, start);
    let text = bytes.subrange(start, start + n);
    let inside = (at - start) as usize;
    &&& 0 <= start <= at < start + n <= bytes.len()
    &&& {
        ||| message == "invalid control character in comment"@ && kind == SyntaxKind::COMMENT
            && disallowed_offsets(text, text.len() as int, false).contains(inside)
        ||| message == "invalid control character in string"@ && is_string(kind)
            && disallowed_offsets(text, text.len() as int, is_multi_line(kind)).contains(inside)
        ||| message == "invalid escape sequence"@ && (kind == SyntaxKind::STRING || kind
            == SyntaxKind::MULTI_LINE_STRING) && invalid_escapes(text, 0).contains(inside)
    }
}

/// Whether the diagnostic `message` at offset `at` points at a fault of the text: at a
/// token, or at the end of the text, for what is wrong with the tokens; into a comment or
/// a string for what is wrong inside it.
pub open spec fn is_fault(bytes: Seq<u8>, at: int, message: Seq<char>) -> bool {
    ||| is_token_boundary(bytes, at) && is_syntax_fault(bytes, at, message)
    ||| exists|start: int|
        is_token_boundary(bytes, start) && #[trigger] is_content_fault(bytes, start, at, message)
}

} // verus!
