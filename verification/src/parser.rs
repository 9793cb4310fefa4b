//! The parser: from source text to a lossless syntax tree and a list of diagnostics.
//!
//! The parser never gives up. A token that cannot stand where it was found goes into the
//! tree as an `ERROR` token, a diagnostic is recorded, and parsing goes on.

use crate::grammar::{
    array_header_end, array_items_end, constructs_in, entry_end, fits_in, has_byte, header_end,
    is_clean_text, is_construct, is_content_fault, is_document_from, is_fault, is_multi_line,
    is_string, is_syntax_fault, is_token_boundary, is_valid_document, is_valid_number,
    is_valid_string, key_end, key_part_end, key_tail_end, lemma_next_token_bounds,
    lemma_token_boundary_step, lexed_in, may_relabel, next_token, table_items_end, value_end,
    well_placed, Next,
};
use crate::lexer::Lexer;
use crate::literal::{bare_key_text, check_underscores, special_float_word, zero_padded};
use crate::scan::{ByteClass, CH_BRACKET_CLOSE, CH_BRACKET_OPEN};
use crate::syntax::{
    lemma_lex_token_bracket, lemma_lex_token_layout, lemma_lex_token_punctuation, lex_token,
    punctuation, SyntaxKind,
};
use crate::text::{byte_len, scalar_width};
use crate::tree::{
    lemma_frames_all_tokens_follow, span_text, token_of, Frame, SyntaxTree, Token, TreeBuilder,
};
use crate::util::allowed_chars;
use crate::util::allowed_chars::{disallowed_offsets, lemma_disallowed_offsets};
use crate::util::escape::{check_escape, invalid_escapes, lemma_invalid_escapes_complete};
use vstd::prelude::*;
use vstd::string::{StringExecFns, StringSliceAdditionalSpecFns};
use vstd::utf8::encode_utf8;

verus! {

/// A syntax error: where it was found, as a byte offset into the source, and what was
/// wrong there.
#[derive(Debug)]
pub struct Diagnostic {
    pub offset: usize,
    pub message: String,
}

impl Clone for Diagnostic {
    fn clone(&self) -> (r: Self)
        ensures
            r.offset == self.offset,
            r.message@ == self.message@,
    {
        Diagnostic { offset: self.offset, message: self.message.clone() }
    }
}

/// What parsing gives: the tree, which is always there, and the errors in the order in
/// which they were found.
#[derive(Debug)]
pub struct Parse {
    pub tree: SyntaxTree,
    pub errors: Vec<Diagnostic>,
}

struct Parser<'p> {
    lexer: Lexer<'p, SyntaxKind>,
    builder: TreeBuilder,
    /// The token that the lexer has handed out and the tree does not hold yet.
    current: Option<SyntaxKind>,
    errors: Vec<Diagnostic>,
    /// The offset up to which the tree holds the source.
    pos: usize,
    len: usize,
}

/// Whether one of `errors` is the diagnostic `message` at offset `at`.
pub open spec fn tells(errors: Seq<Diagnostic>, at: int, message: Seq<char>) -> bool {
    exists|i: int|
        0 <= i < errors.len() && (#[trigger] errors[i]).offset == at && errors[i].message@
            == message
}

/// Whether `errors` tell all that is wrong inside `token`: for every offset that the
/// validator of the token's kind gives for its text, there is a diagnostic at the start of
/// the token plus that offset. A comment and a string are checked for control characters,
/// a basic string for its escapes too.
pub open spec fn is_content_reported(
    bytes: Seq<u8>,
    errors: Seq<Diagnostic>,
    token: Token,
) -> bool {
    let start = token.span.start as int;
    let text = span_text(bytes, token.span);
    let in_comment = disallowed_offsets(text, text.len() as int, false);
    let in_string = disallowed_offsets(text, text.len() as int, is_multi_line(token.kind));
    let escapes = invalid_escapes(text, 0);
    &&& token.kind == SyntaxKind::COMMENT ==> forall|k: int|
        0 <= k < in_comment.len() ==> tells(
            errors,
            start + #[trigger] in_comment[k],
            "invalid control character in comment"@,
        )
    &&& is_string(token.kind) ==> forall|k: int|
        0 <= k < in_string.len() ==> tells(
            errors,
            start + #[trigger] in_string[k],
            "invalid control character in string"@,
        )
    &&& token.kind == SyntaxKind::STRING || token.kind == SyntaxKind::MULTI_LINE_STRING
        ==> forall|k: int|
        0 <= k < escapes.len() ==> tells(
            errors,
            start + #[trigger] escapes[k],
            "invalid escape sequence"@,
        )
}

/// The property of being a token of which `errors` tell all that is wrong inside it.
pub open spec fn content_reported(bytes: Seq<u8>, errors: Seq<Diagnostic>) -> spec_fn(
    SyntaxKind,
    Token,
) -> bool {
    |parent: SyntaxKind, token: Token| is_content_reported(bytes, errors, token)
}

/// Whether a token of kind `kind` is layout or a comment, which may stand anywhere.
pub open spec fn is_trivia(kind: SyntaxKind) -> bool {
    kind == SyntaxKind::WHITESPACE || kind == SyntaxKind::COMMENT
}

impl<'p> Parser<'p> {
    spec fn source(&self) -> Seq<u8> {
        self.lexer.bytes()
    }

    /// The number of nodes that are open.
    spec fn depth(&self) -> nat {
        self.open_nodes().len()
    }

    /// The number of bytes of the source that the tree does not hold yet.
    spec fn remaining(&self) -> int {
        self.len - self.pos
    }

    /// The tree under construction holds the source up to `pos` without gap or overlap, and
    /// the lexer is not behind it.
    spec fn base(&self) -> bool {
        &&& encode_utf8(self.builder.source_text()) == self.source()
        &&& self.len == self.source().len()
        &&& self.builder.tiled()
        &&& self.builder.grounded()
        &&& self.builder.all_tokens(lexed_in(self.source()))
        &&& self.builder.all_tokens(content_reported(self.source(), self.errors@))
        &&& self.errors@.len() == 0 ==> self.builder.all_tokens(well_placed())
        &&& self.errors@.len() == 0 ==> self.builder.all_nodes(constructs_in(self.source()))
        &&& self.builder.cursor() == self.pos
        &&& self.pos <= self.lexer.position() <= self.len
        &&& self.depth() >= 1
        &&& is_token_boundary(self.source(), self.pos as int)
        &&& forall|i: int|
            0 <= i < self.errors@.len() ==> (#[trigger] self.errors@[i]).offset <= self.len
                && is_fault(self.source(), self.errors@[i].offset as int, self.errors@[i].message@)
    }

    /// The kind of the token that the text after what the tree holds starts with; `ERROR`
    /// where it starts with none.
    spec fn lexed_kind(&self) -> SyntaxKind {
        match lex_token(self.source().skip(self.pos as int)) {
            Some((kind, _)) => kind,
            None => SyntaxKind::ERROR,
        }
    }

    /// The length of the token that the text after what the tree holds starts with, or of
    /// its first character where it starts with none.
    spec fn lexed_len(&self) -> int {
        match lex_token(self.source().skip(self.pos as int)) {
            Some((_, n)) => n,
            None => scalar_width(self.source()[self.pos as int]),
        }
    }

    /// The lexer has handed out one token that the tree does not hold yet.
    spec fn one_ahead(&self) -> bool {
        &&& self.lexer.spec_span().start == self.pos
        &&& self.lexer.spec_span().end == self.lexer.position()
        &&& self.pos < self.lexer.position()
        &&& self.lexer.position() == self.pos + self.lexed_len()
    }

    /// Between two steps of the parser: the lexer stands right after what the tree holds,
    /// or one token further where a token is pending; and that token is none that `peek`
    /// handles itself.
    spec fn inv(&self) -> bool {
        &&& self.base()
        &&& match self.current {
            Some(kind) => {
                &&& self.one_ahead()
                &&& kind == self.lexed_kind()
                &&& !is_trivia(kind)
                &&& kind != SyntaxKind::ERROR
                &&& self.at() == Next::Token {
                    kind,
                    start: self.pos as int,
                    end: self.lexer.position(),
                }
            },
            None => self.lexer.position() == self.pos,
        }
    }

    /// The kind and the start of each open node, the outermost first.
    spec fn open_nodes(&self) -> Seq<(SyntaxKind, usize)> {
        self.builder.frames().map_values(|f: Frame| (f.kind, f.start))
    }

    /// What a step of the parser keeps: the source, the open nodes, and the errors found
    /// so far; and the tree never loses text.
    spec fn follows(&self, before: &Self) -> bool {
        &&& self.base()
        &&& self.source() == before.source()
        &&& self.builder.source_text() == before.builder.source_text()
        &&& self.open_nodes() == before.open_nodes()
        &&& self.remaining() <= before.remaining()
        &&& self.errors@.len() >= before.errors@.len()
    }

    /// The kind of the innermost open node.
    spec fn top(&self) -> SyntaxKind {
        self.open_nodes().last().0
    }

    /// The errors found so far tell all that is wrong inside the token that the lexer
    /// handed out last, taken as one of kind `kind`.
    spec fn tells_of(&self, kind: SyntaxKind) -> bool {
        is_content_reported(
            self.source(),
            self.errors@,
            token_of(kind, self.pos, self.lexer.position() as usize),
        )
    }

    /// No error has been found since `before`.
    spec fn clean_since(&self, before: &Self) -> bool {
        self.errors@.len() == before.errors@.len()
    }

    /// The parser has read a construct that ends at `end`, or found an error where the
    /// source holds none: no error has been found since `before` exactly where `end` is an
    /// offset, and then the tree holds the source up to there, and no token is pending.
    spec fn has_read(&self, before: &Self, end: Option<int>) -> bool {
        &&& self.clean_since(before) <==> end is Some
        &&& self.clean_since(before) ==> {
            &&& self.current is None
            &&& self.pos == end->0
            &&& self.remaining() < before.remaining()
        }
    }

    /// What comes next in the source after what the tree holds.
    spec fn at(&self) -> Next {
        next_token(self.source(), self.pos as int)
    }

    /// The text of the token that the lexer handed out last.
    spec fn token_text(&self) -> Seq<u8> {
        self.source().subrange(self.pos as int, self.lexer.position())
    }

    /// Records an error at offset `offset`.
    fn error_at(&mut self, offset: usize, message: &str)
        requires
            old(self).base(),
            offset <= old(self).len,
            is_fault(old(self).source(), offset as int, message@),
        ensures
            final(self).follows(old(self)),
            final(self).lexer == old(self).lexer,
            final(self).builder == old(self).builder,
            final(self).pos == old(self).pos,
            final(self).len == old(self).len,
            final(self).current == old(self).current,
            final(self).errors@.len() == old(self).errors@.len() + 1,
            final(self).errors@.drop_last() == old(self).errors@,
            final(self).errors@.last().offset == offset,
            final(self).errors@.last().message@ == message@,
    {
        self.errors.push(Diagnostic { offset, message: String::from_str(message) });
        proof {
            let before = old(self).errors@;
            let after = self.errors@;
            assert(after.drop_last() =~= before);
            assert forall|kind: SyntaxKind, token: Token| #[trigger]
                content_reported(self.source(), before)(kind, token) implies content_reported(
                self.source(),
                after,
            )(kind, token) by {
                lemma_tells_more(before, after);
            }
            lemma_frames_all_tokens_follow(
                self.builder.frames(),
                content_reported(self.source(), before),
                content_reported(self.source(), after),
            );
        }
    }

    /// Records an error at the pending token, or at the end of the source where none is
    /// pending.
    fn error(&mut self, message: &str)
        requires
            old(self).base(),
            is_syntax_fault(old(self).source(), old(self).pos as int, message@),
        ensures
            final(self).follows(old(self)),
            final(self).lexer == old(self).lexer,
            final(self).builder == old(self).builder,
            final(self).pos == old(self).pos,
            final(self).len == old(self).len,
            final(self).current == old(self).current,
            final(self).errors@.len() == old(self).errors@.len() + 1,
            final(self).errors@.drop_last() == old(self).errors@,
    {
        self.error_at(self.pos, message);
    }

    /// Records one error for each offset of `found`, which are offsets into the last token.
    fn errors_in_token(&mut self, found: Vec<usize>, message: &str)
        requires
            old(self).base(),
            is_token_boundary(old(self).source(), old(self).lexer.spec_span().start as int),
            forall|i: int|
                0 <= i < found@.len() ==> old(self).lexer.spec_span().start + (
                #[trigger] found@[i]) <= old(self).len && is_content_fault(
                    old(self).source(),
                    old(self).lexer.spec_span().start as int,
                    old(self).lexer.spec_span().start + found@[i],
                    message@,
                ),
        ensures
            final(self).follows(old(self)),
            final(self).lexer == old(self).lexer,
            final(self).builder == old(self).builder,
            final(self).pos == old(self).pos,
            final(self).len == old(self).len,
            final(self).current == old(self).current,
            final(self).errors@.len() == old(self).errors@.len() + found@.len(),
            final(self).errors@.subrange(0, old(self).errors@.len() as int) == old(self).errors@,
            forall|k: int|
                0 <= k < found@.len() ==> tells(
                    final(self).errors@,
                    old(self).lexer.spec_span().start + #[trigger] found@[k],
                    message@,
                ),
    {
        let start: usize = self.lexer.span().start;
        let mut i: usize = 0;
        while i < found.len()
            invariant
                i <= found@.len(),
                self.follows(old(self)),
                self.lexer == old(self).lexer,
                self.builder == old(self).builder,
                self.pos == old(self).pos,
                self.len == old(self).len,
                self.current == old(self).current,
                start == self.lexer.spec_span().start,
                self.errors@.len() == old(self).errors@.len() + i,
                self.errors@.subrange(0, old(self).errors@.len() as int) == old(self).errors@,
                forall|k: int|
                    0 <= k < i ==> tells(self.errors@, start + #[trigger] found@[k], message@),
                is_token_boundary(self.source(), start as int),
                forall|i: int|
                    0 <= i < found@.len() ==> start + (#[trigger] found@[i]) <= self.len
                        && is_content_fault(
                        self.source(),
                        start as int,
                        start + found@[i],
                        message@,
                    ),
            decreases found@.len() - i,
        {
            assert(is_content_fault(
                self.source(),
                start as int,
                start + found@[i as int],
                message@,
            ));
            let ghost before = self.errors@;
            self.error_at(start + found[i], message);
            proof {
                lemma_tells_more(before, self.errors@);
                assert(self.errors@.subrange(0, old(self).errors@.len() as int)
                    =~= before.subrange(0, old(self).errors@.len() as int));
                assert(self.errors@[self.errors@.len() - 1].offset == start + found@[i as int]);
            }
            i += 1;
        }
    }

    /// Puts the token that the lexer handed out last into the tree, as one of kind `kind`.
    fn insert(&mut self, kind: SyntaxKind)
        requires
            old(self).base(),
            old(self).one_ahead(),
            may_relabel(old(self).lexed_kind(), kind),
            old(self).errors@.len() == 0 ==> fits_in(old(self).top(), kind),
            old(self).tells_of(kind),
        ensures
            final(self).inv(),
            final(self).follows(old(self)),
            final(self).current is None,
            final(self).pos == old(self).lexer.position(),
            final(self).lexer == old(self).lexer,
            final(self).errors == old(self).errors,
    {
        let span = self.lexer.span();
        let text = self.lexer.slice();
        proof {
            let rest = self.source().skip(self.pos as int);
            lemma_token_boundary_step(self.source(), 0, self.pos as int);
            lemma_lex_token_layout(rest);
            assert forall|i: int| 0 <= i < text.spec_bytes().len() implies text.spec_bytes()[i]
                == rest[i] by {}
        }
        self.builder.token(kind, text);
        self.pos = span.end;
        self.current = None;
        assert(self.open_nodes() =~= old(self).open_nodes());
    }

    /// Looks at the next token that is neither a blank nor a comment, and leaves it
    /// pending. Blanks, comments and characters that start no token go into the tree on
    /// the way; the latter two are checked.
    fn peek(&mut self) -> (r: Option<SyntaxKind>)
        requires
            old(self).inv(),
        ensures
            final(self).inv(),
            final(self).follows(old(self)),
            r == final(self).current,
            old(self).current is Some ==> final(self).remaining() == old(self).remaining()
                && final(self).errors == old(self).errors && final(self).lexer == old(self).lexer,
            r is None ==> final(self).remaining() == 0,
            final(self).clean_since(old(self)) <==> !(old(self).at() is Bad),
            final(self).clean_since(old(self)) ==> final(self).at() == old(self).at(),
            r is None ==> final(self).at() is End,
    {
        if self.current.is_some() {
            return self.current;
        }
        loop
            invariant
                self.inv(),
                self.follows(old(self)),
                self.current is None,
                old(self).current is None,
                self.clean_since(old(self)) ==> self.at() == old(self).at(),
                !self.clean_since(old(self)) ==> old(self).at() is Bad,
            decreases self.len - self.lexer.position(),
        {
            proof {
                reveal_with_fuel(next_token, 2);
            }
            let next = self.lexer.next();
            match next {
                None => {
                    return None;
                },
                Some(Err(_)) => {
                    self.error("unexpected token");
                    self.insert(SyntaxKind::ERROR);
                },
                Some(Ok(kind)) => {
                    if kind == SyntaxKind::WHITESPACE {
                        self.insert(kind);
                    } else if kind == SyntaxKind::ERROR {
                        self.error("unexpected token");
                        self.insert(SyntaxKind::ERROR);
                    } else if kind == SyntaxKind::COMMENT {
                        self.check_comment();
                        self.insert(kind);
                    } else {
                        self.current = Some(kind);
                        return Some(kind);
                    }
                },
            }
        }
    }

    /// Records an error for each control character that the comment handed out last may
    /// not hold.
    fn check_comment(&mut self)
        requires
            old(self).base(),
            old(self).one_ahead(),
            old(self).lexed_kind() == SyntaxKind::COMMENT,
        ensures
            final(self).follows(old(self)),
            final(self).lexer == old(self).lexer,
            final(self).builder == old(self).builder,
            final(self).pos == old(self).pos,
            final(self).len == old(self).len,
            final(self).current == old(self).current,
            final(self).clean_since(old(self)) <==> is_clean_text(old(self).token_text(), false),
            final(self).tells_of(SyntaxKind::COMMENT),
    {
        let text = self.lexer.slice();
        if let Err(found) = allowed_chars::comment(text) {
            proof {
                lemma_disallowed_offsets(text.spec_bytes(), text.spec_bytes().len() as int, false);
            }
            self.errors_in_token(found, "invalid control character in comment");
        }
    }

    /// Puts the pending token into the tree as one of kind `kind`.
    fn bump_as(&mut self, kind: SyntaxKind)
        requires
            old(self).inv(),
            old(self).current is Some,
            may_relabel(old(self).current->0, kind),
            old(self).errors@.len() == 0 ==> fits_in(old(self).top(), kind),
            old(self).tells_of(kind),
        ensures
            final(self).inv(),
            final(self).follows(old(self)),
            final(self).remaining() < old(self).remaining(),
            final(self).current is None,
            final(self).errors == old(self).errors,
            final(self).pos == old(self).lexer.position(),
    {
        self.insert(kind);
    }

    /// Puts the pending token into the tree.
    fn bump(&mut self)
        requires
            old(self).inv(),
            old(self).current is Some,
            old(self).errors@.len() == 0 ==> fits_in(old(self).top(), old(self).current->0),
            old(self).tells_of(old(self).current->0),
        ensures
            final(self).inv(),
            final(self).follows(old(self)),
            final(self).remaining() < old(self).remaining(),
            final(self).current is None,
            final(self).errors == old(self).errors,
            final(self).pos == old(self).lexer.position(),
    {
        let kind = self.current.unwrap();
        self.insert(kind);
    }
}

/// What diagnostics tell, they tell when more diagnostics have come after them.
proof fn lemma_tells_more(before: Seq<Diagnostic>, after: Seq<Diagnostic>)
    requires
        before.len() <= after.len(),
        after.subrange(0, before.len() as int) == before,
    ensures
        forall|at: int, message: Seq<char>| #[trigger]
            tells(before, at, message) ==> tells(after, at, message),
{
    assert forall|at: int, message: Seq<char>| #[trigger]
        tells(before, at, message) implies tells(after, at, message) by {
        let i = choose|i: int|
            0 <= i < before.len() && (#[trigger] before[i]).offset == at && before[i].message@
                == message;
        assert(after.subrange(0, before.len() as int)[i] == after[i]);
    }
}

/// Whether `message` is what the parser says where it looked for a token of kind `kind`
/// and found none.
spec fn is_expectation(kind: SyntaxKind, message: Seq<char>) -> bool {
    ||| kind == SyntaxKind::EQ && message == "expected \"=\""@
    ||| kind == SyntaxKind::BRACKET_END && message == "expected \"]\""@
    ||| kind == SyntaxKind::BRACKET_END && message == "expected \"]]\""@
    ||| kind == SyntaxKind::BRACKET_START && message == "expected \"[[\""@
}

/// Tells whether a token of kind `kind` ends a line, a value or a list, so that error
/// recovery stops before it.
fn ends_construct(kind: SyntaxKind) -> (r: bool)
    ensures
        r == (kind == SyntaxKind::NEWLINE || kind == SyntaxKind::COMMA || kind
            == SyntaxKind::BRACKET_END || kind == SyntaxKind::BRACE_END),
{
    kind == SyntaxKind::NEWLINE || kind == SyntaxKind::COMMA || kind == SyntaxKind::BRACKET_END
        || kind == SyntaxKind::BRACE_END
}

impl<'p> Parser<'p> {
    /// Opens a node of kind `kind` where the tree ends.
    fn open(&mut self, kind: SyntaxKind)
        requires
            old(self).inv(),
        ensures
            final(self).inv(),
            final(self).source() == old(self).source(),
            final(self).builder.source_text() == old(self).builder.source_text(),
            final(self).open_nodes().len() == old(self).open_nodes().len() + 1,
            final(self).open_nodes().drop_last() == old(self).open_nodes(),
            final(self).open_nodes().last() == (kind, old(self).pos),
            final(self).remaining() == old(self).remaining(),
            final(self).errors == old(self).errors,
            final(self).current == old(self).current,
            final(self).lexer == old(self).lexer,
    {
        self.builder.start_node(kind);
        assert(self.open_nodes() =~= old(self).open_nodes().push((kind, old(self).pos)));
        assert(self.open_nodes().drop_last() =~= old(self).open_nodes());
    }

    /// Closes the innermost open node, which is not the only one.
    fn close(&mut self)
        requires
            old(self).inv(),
            old(self).depth() >= 2,
            old(self).errors@.len() == 0 ==> is_construct(
                old(self).source(),
                old(self).open_nodes().last().0,
                old(self).open_nodes().last().1..old(self).pos,
            ),
        ensures
            final(self).inv(),
            final(self).source() == old(self).source(),
            final(self).builder.source_text() == old(self).builder.source_text(),
            final(self).open_nodes() == old(self).open_nodes().drop_last(),
            final(self).remaining() == old(self).remaining(),
            final(self).errors == old(self).errors,
            final(self).current == old(self).current,
            final(self).lexer == old(self).lexer,
    {
        self.builder.finish_node();
        proof {
            let n = old(self).builder.frames().len() as int;
            assert(self.builder.frames().drop_last() == old(self).builder.frames().subrange(
                0,
                n - 2,
            ));
            assert forall|i: int| 0 <= i < n - 1 implies self.open_nodes()[i]
                == old(self).open_nodes().drop_last()[i] by {
                if i < n - 2 {
                    assert(self.builder.frames()[i] == self.builder.frames().drop_last()[i]);
                }
            }
            assert(self.open_nodes() =~= old(self).open_nodes().drop_last());
        }
    }

    /// Takes the pending token where it is of kind `kind`. Where it is not, records an error
    /// and makes the token an `ERROR`, unless it is one that ends a line, a value or a
    /// list: such a token is left where it is. Tells whether it found `kind`.
    fn expect(&mut self, kind: SyntaxKind, message: &str) -> (r: bool)
        requires
            old(self).inv(),
            is_expectation(kind, message@),
            old(self).errors@.len() == 0 ==> fits_in(old(self).top(), kind),
        ensures
            final(self).inv(),
            final(self).follows(old(self)),
            r ==> final(self).remaining() < old(self).remaining() && final(self).current is None,
            final(self).clean_since(old(self)) <==> old(self).at().is_token(kind),
            final(self).clean_since(old(self)) ==> r && final(self).current is None,
            final(self).clean_since(old(self)) ==> final(self).pos == old(self).at().token_end(),
    {
        match self.peek() {
            Some(found) => {
                if found == kind {
                    self.bump();
                    true
                } else {
                    proof {
                        if punctuation(self.source()[self.pos as int]) is Some {
                            lemma_punctuation_next(self.source(), self.pos as int);
                        }
                    }
                    self.error(message);
                    if !ends_construct(found) {
                        self.bump_as(SyntaxKind::ERROR);
                    }
                    false
                }
            },
            None => {
                self.error(message);
                false
            },
        }
    }

    /// Checks the pending token, which is a string of kind `kind`, for control characters
    /// and, in a basic string, for escapes that are not valid.
    fn check_string(&mut self, kind: SyntaxKind)
        requires
            old(self).inv(),
            old(self).current == Some(kind),
            kind == SyntaxKind::STRING || kind == SyntaxKind::MULTI_LINE_STRING || kind
                == SyntaxKind::STRING_LITERAL || kind == SyntaxKind::MULTI_LINE_STRING_LITERAL,
        ensures
            final(self).inv(),
            final(self).follows(old(self)),
            final(self).lexer == old(self).lexer,
            final(self).builder == old(self).builder,
            final(self).pos == old(self).pos,
            final(self).current == old(self).current,
            final(self).clean_since(old(self)) <==> is_valid_string(kind, old(self).token_text()),
            final(self).tells_of(kind),
    {
        let text = self.lexer.slice();
        let multi_line = kind == SyntaxKind::MULTI_LINE_STRING || kind
            == SyntaxKind::MULTI_LINE_STRING_LITERAL;
        let checked = if kind == SyntaxKind::STRING {
            allowed_chars::string(text)
        } else if kind == SyntaxKind::MULTI_LINE_STRING {
            allowed_chars::multi_line_string(text)
        } else if kind == SyntaxKind::STRING_LITERAL {
            allowed_chars::string_literal(text)
        } else {
            allowed_chars::multi_line_string_literal(text)
        };
        if let Err(found) = checked {
            proof {
                let offsets = disallowed_offsets(
                    text.spec_bytes(),
                    text.spec_bytes().len() as int,
                    multi_line,
                );
                lemma_disallowed_offsets(
                    text.spec_bytes(),
                    text.spec_bytes().len() as int,
                    multi_line,
                );
                assert forall|i: int| 0 <= i < found@.len() implies is_content_fault(
                    self.source(),
                    self.pos as int,
                    self.pos + #[trigger] found@[i],
                    "invalid control character in string"@,
                ) by {
                    assert(offsets[i] == found@[i]);
                    assert(offsets.contains(found@[i]));
                }
            }
            self.errors_in_token(found, "invalid control character in string");
        }
        if kind == SyntaxKind::STRING || kind == SyntaxKind::MULTI_LINE_STRING {
            if let Err(found) = check_escape(text) {
                proof {
                    let offsets = invalid_escapes(text.spec_bytes(), 0);
                    lemma_invalid_escapes_complete(text.spec_bytes(), 0);
                    assert forall|i: int| 0 <= i < found@.len() implies is_content_fault(
                        self.source(),
                        self.pos as int,
                        self.pos + #[trigger] found@[i],
                        "invalid escape sequence"@,
                    ) by {
                        assert(offsets[i] == found@[i]);
                        assert(offsets.contains(found@[i]));
                    }
                }
                self.errors_in_token(found, "invalid escape sequence");
            }
        }
    }

    /// Parses one part of a key: a bare key, a number, date or word that reads as one, or a
    /// string on one line. A token that ends the key is left where it is.
    fn parse_key_part(&mut self)
        requires
            old(self).inv(),
            old(self).top() == SyntaxKind::KEY,
        ensures
            final(self).inv(),
            final(self).follows(old(self)),
            final(self).has_read(
                old(self),
                key_part_end(old(self).source(), old(self).pos as int),
            ),
    {
        let kind = match self.peek() {
            Some(kind) => kind,
            None => {
                self.error("expected identifier");
                return ;
            },
        };
        match kind {
            SyntaxKind::IDENT => {
                self.bump();
            },
            SyntaxKind::INTEGER
            | SyntaxKind::INTEGER_HEX
            | SyntaxKind::INTEGER_OCT
            | SyntaxKind::INTEGER_BIN
            | SyntaxKind::FLOAT
            | SyntaxKind::BOOL
            | SyntaxKind::DATE => {
                if bare_key_text(self.lexer.slice().as_bytes()) {
                    self.bump();
                } else {
                    self.error("expected identifier");
                    self.bump_as(SyntaxKind::ERROR);
                }
            },
            SyntaxKind::STRING | SyntaxKind::STRING_LITERAL => {
                self.check_string(kind);
                self.bump();
            },
            SyntaxKind::NEWLINE
            | SyntaxKind::EQ
            | SyntaxKind::PERIOD
            | SyntaxKind::COMMA
            | SyntaxKind::BRACKET_END
            | SyntaxKind::BRACE_END => {
                self.error("expected identifier");
            },
            _ => {
                self.error("expected identifier");
                self.bump_as(SyntaxKind::ERROR);
            },
        }
    }

    /// Parses a key: parts with periods between them.
    fn parse_key(&mut self)
        requires
            old(self).inv(),
            old(self).top() == SyntaxKind::KEY,
        ensures
            final(self).inv(),
            final(self).follows(old(self)),
            final(self).clean_since(old(self)) <==> key_end(
                old(self).source(),
                old(self).pos as int,
            ) is Some,
            final(self).clean_since(old(self)) ==> final(self).at() == next_token(
                old(self).source(),
                key_end(old(self).source(), old(self).pos as int)->0,
            ),
            final(self).clean_since(old(self)) ==> key_end(
                old(self).source(),
                old(self).pos as int,
            )->0 <= final(self).pos,
    {
        let ghost bytes = self.source();
        let ghost total = key_end(bytes, self.pos as int);
        self.parse_key_part();
        loop
            invariant
                self.inv(),
                self.follows(old(self)),
                bytes == self.source(),
                total == key_end(bytes, old(self).pos as int),
                self.top() == SyntaxKind::KEY,
                self.clean_since(old(self)) ==> self.current is None && total == key_tail_end(
                    bytes,
                    self.pos as int,
                ),
                !self.clean_since(old(self)) ==> total is None,
            decreases self.remaining(),
        {
            let ghost before = *self;
            match self.peek() {
                Some(SyntaxKind::PERIOD) => {
                    proof {
                        lemma_next_token_bounds(bytes, before.pos as int);
                    }
                    self.bump();
                    let ghost after_period = *self;
                    self.parse_key_part();
                    proof {
                        if self.clean_since(old(self)) {
                            assert(after_period.clean_since(old(self)));
                            assert(before.clean_since(old(self)));
                        }
                    }
                },
                _ => {
                    return ;
                },
            }
        }
    }

    /// Checks the pending token, which is a number of kind `kind`, and puts it into the
    /// tree: as it is where it is written as TOML wants it, and as an `ERROR` otherwise.
    fn parse_number(&mut self, kind: SyntaxKind)
        requires
            old(self).inv(),
            old(self).top() == SyntaxKind::VALUE,
            old(self).current == Some(kind),
            kind == SyntaxKind::INTEGER || kind == SyntaxKind::INTEGER_HEX || kind
                == SyntaxKind::INTEGER_OCT || kind == SyntaxKind::INTEGER_BIN || kind
                == SyntaxKind::FLOAT,
        ensures
            final(self).inv(),
            final(self).follows(old(self)),
            final(self).remaining() < old(self).remaining(),
            final(self).current is None,
            final(self).pos == old(self).lexer.position(),
            final(self).clean_since(old(self)) <==> is_valid_number(kind, old(self).token_text()),
    {
        let text = self.lexer.slice().as_bytes();
        let decimal = kind == SyntaxKind::INTEGER || kind == SyntaxKind::FLOAT;
        let separated = if decimal {
            check_underscores(text, 0, ByteClass::Digit)
        } else if text.len() < 2 {
            false
        } else if kind == SyntaxKind::INTEGER_HEX {
            check_underscores(text, 2, ByteClass::HexDigit)
        } else if kind == SyntaxKind::INTEGER_OCT {
            check_underscores(text, 2, ByteClass::OctalDigit)
        } else {
            check_underscores(text, 2, ByteClass::BinaryDigit)
        };
        if decimal && zero_padded(text) {
            self.error("zero-padded numbers are not allowed");
            self.bump_as(SyntaxKind::ERROR);
        } else if !separated {
            self.error("invalid underscores");
            self.bump_as(SyntaxKind::ERROR);
        } else {
            self.bump();
        }
    }

    /// Parses a value: a string, a number, a boolean, a date or time, an array or an
    /// inline table. A token that ends what the value stands in is left where it is.
    fn parse_value(&mut self)
        requires
            old(self).inv(),
            old(self).top() == SyntaxKind::VALUE,
        ensures
            final(self).inv(),
            final(self).follows(old(self)),
            final(self).has_read(
                old(self),
                value_end(old(self).source(), old(self).pos as int),
            ),
        decreases old(self).remaining(), 1int,
    {
        proof {
            lemma_next_token_bounds(self.source(), self.pos as int);
        }
        let kind = match self.peek() {
            Some(kind) => kind,
            None => {
                self.error("expected value");
                return ;
            },
        };
        match kind {
            SyntaxKind::BOOL
            | SyntaxKind::DATE_TIME_OFFSET
            | SyntaxKind::DATE_TIME_LOCAL
            | SyntaxKind::DATE
            | SyntaxKind::TIME => {
                self.bump();
            },
            SyntaxKind::INTEGER
            | SyntaxKind::INTEGER_HEX
            | SyntaxKind::INTEGER_OCT
            | SyntaxKind::INTEGER_BIN
            | SyntaxKind::FLOAT => {
                self.parse_number(kind);
            },
            SyntaxKind::STRING
            | SyntaxKind::MULTI_LINE_STRING
            | SyntaxKind::STRING_LITERAL
            | SyntaxKind::MULTI_LINE_STRING_LITERAL => {
                self.check_string(kind);
                self.bump();
            },
            SyntaxKind::IDENT => {
                if special_float_word(self.lexer.slice().as_bytes()) {
                    self.bump_as(SyntaxKind::FLOAT);
                } else {
                    self.error("expected value");
                    self.bump_as(SyntaxKind::ERROR);
                }
            },
            SyntaxKind::BRACKET_START => {
                self.open(SyntaxKind::ARRAY);
                self.parse_array();
                self.close();
            },
            SyntaxKind::BRACE_START => {
                self.open(SyntaxKind::INLINE_TABLE);
                self.parse_inline_table();
                self.close();
            },
            SyntaxKind::NEWLINE
            | SyntaxKind::COMMA
            | SyntaxKind::BRACKET_END
            | SyntaxKind::BRACE_END => {
                self.error("expected value");
            },
            _ => {
                self.error("expected value");
                self.bump_as(SyntaxKind::ERROR);
            },
        }
    }

    /// Parses an array, whose opening bracket is pending: values with commas between
    /// them, on any number of lines, up to the closing bracket.
    fn parse_array(&mut self)
        requires
            old(self).inv(),
            old(self).top() == SyntaxKind::ARRAY,
            old(self).current == Some(SyntaxKind::BRACKET_START),
        ensures
            final(self).inv(),
            final(self).follows(old(self)),
            final(self).remaining() < old(self).remaining(),
            final(self).has_read(
                old(self),
                array_items_end(old(self).source(), old(self).lexer.position(), true, false),
            ),
        decreases old(self).remaining(), 0int,
    {
        let ghost bytes = self.source();
        let ghost total = array_items_end(bytes, self.lexer.position(), true, false);
        self.bump();
        let mut first = true;
        let mut comma_last = false;
        loop
            invariant
                self.inv(),
                self.follows(old(self)),
                self.remaining() < old(self).remaining(),
                bytes == self.source(),
                total == array_items_end(bytes, old(self).lexer.position(), true, false),
                self.top() == SyntaxKind::ARRAY,
                self.clean_since(old(self)) ==> self.current is None && total == array_items_end(
                    bytes,
                    self.pos as int,
                    first,
                    comma_last,
                ),
                !self.clean_since(old(self)) ==> total is None,
            decreases self.remaining(),
        {
            let ghost before = *self;
            proof {
                lemma_next_token_bounds(bytes, self.pos as int);
            }
            let kind = match self.peek() {
                Some(kind) => kind,
                None => {
                    proof {
                        if before.clean_since(old(self)) {
                            assert(array_items_end(
                                bytes,
                                before.pos as int,
                                first,
                                comma_last,
                            ) is None);
                        }
                    }
                    self.error("expected \"]\"");
                    return ;
                },
            };
            let ghost peeked = *self;
            proof {
                if peeked.clean_since(old(self)) {
                    assert(before.clean_since(old(self)));
                    assert(before.at() == peeked.at());
                    assert(total == array_items_end(bytes, before.pos as int, first, comma_last));
                }
            }
            match kind {
                SyntaxKind::BRACKET_END => {
                    self.bump();
                    proof {
                        if self.clean_since(old(self)) {
                            assert(total == Some(self.pos as int));
                        }
                    }
                    return ;
                },
                SyntaxKind::NEWLINE => {
                    self.bump();
                },
                SyntaxKind::COMMA => {
                    if first || comma_last {
                        self.error("unexpected \",\"");
                    }
                    self.bump();
                    first = false;
                    comma_last = true;
                },
                _ => {
                    if !first && !comma_last {
                        self.error("expected \",\"");
                    }
                    let start: usize = self.pos;
                    self.open(SyntaxKind::VALUE);
                    self.parse_value();
                    self.close();
                    if self.pos == start {
                        match self.peek() {
                            Some(_) => {
                                self.bump_as(SyntaxKind::ERROR);
                            },
                            None => {
                                return ;
                            },
                        }
                    }
                    first = false;
                    comma_last = false;
                },
            }
        }
    }

    /// Parses an inline table, whose opening brace is pending: entries with commas between
    /// them, on any number of lines, up to the closing brace.
    fn parse_inline_table(&mut self)
        requires
            old(self).inv(),
            old(self).top() == SyntaxKind::INLINE_TABLE,
            old(self).current == Some(SyntaxKind::BRACE_START),
        ensures
            final(self).inv(),
            final(self).follows(old(self)),
            final(self).remaining() < old(self).remaining(),
            final(self).has_read(
                old(self),
                table_items_end(old(self).source(), old(self).lexer.position(), true, false),
            ),
        decreases old(self).remaining(), 0int,
    {
        let ghost bytes = self.source();
        let ghost total = table_items_end(bytes, self.lexer.position(), true, false);
        self.bump();
        let mut first = true;
        let mut comma_last = false;
        loop
            invariant
                self.inv(),
                self.follows(old(self)),
                self.remaining() < old(self).remaining(),
                bytes == self.source(),
                total == table_items_end(bytes, old(self).lexer.position(), true, false),
                self.top() == SyntaxKind::INLINE_TABLE,
                self.clean_since(old(self)) ==> self.current is None && total == table_items_end(
                    bytes,
                    self.pos as int,
                    first,
                    comma_last,
                ),
                !self.clean_since(old(self)) ==> total is None,
            decreases self.remaining(),
        {
            let ghost before = *self;
            proof {
                lemma_next_token_bounds(bytes, self.pos as int);
            }
            let kind = match self.peek() {
                Some(kind) => kind,
                None => {
                    proof {
                        if before.clean_since(old(self)) {
                            assert(table_items_end(
                                bytes,
                                before.pos as int,
                                first,
                                comma_last,
                            ) is None);
                        }
                    }
                    self.error("expected \"}\"");
                    return ;
                },
            };
            let ghost peeked = *self;
            proof {
                if peeked.clean_since(old(self)) {
                    assert(before.clean_since(old(self)));
                    assert(before.at() == peeked.at());
                    assert(total == table_items_end(bytes, before.pos as int, first, comma_last));
                }
            }
            match kind {
                SyntaxKind::BRACE_END => {
                    self.bump();
                    proof {
                        if self.clean_since(old(self)) {
                            assert(total == Some(self.pos as int));
                        }
                    }
                    return ;
                },
                SyntaxKind::NEWLINE => {
                    self.bump();
                },
                SyntaxKind::COMMA => {
                    if first || comma_last {
                        self.error("unexpected \",\"");
                    }
                    self.bump();
                    first = false;
                    comma_last = true;
                },
                _ => {
                    if !first && !comma_last {
                        self.error("expected \",\"");
                    }
                    let start: usize = self.pos;
                    self.open(SyntaxKind::ENTRY);
                    self.parse_entry();
                    self.close();
                    if self.pos == start {
                        match self.peek() {
                            Some(_) => {
                                self.bump_as(SyntaxKind::ERROR);
                            },
                            None => {
                                return ;
                            },
                        }
                    }
                    first = false;
                    comma_last = false;
                },
            }
        }
    }

    /// Parses an entry: a key, `=` and a value.
    fn parse_entry(&mut self)
        requires
            old(self).inv(),
            old(self).top() == SyntaxKind::ENTRY,
        ensures
            final(self).inv(),
            final(self).follows(old(self)),
            final(self).has_read(
                old(self),
                entry_end(old(self).source(), old(self).pos as int),
            ),
        decreases old(self).remaining(), 2int,
    {
        let ghost bytes = self.source();
        self.open(SyntaxKind::KEY);
        self.parse_key();
        self.close();
        if self.expect(SyntaxKind::EQ, "expected \"=\"") {
            proof {
                lemma_next_token_bounds(bytes, self.pos as int);
            }
            self.peek();
            self.open(SyntaxKind::VALUE);
            self.parse_value();
            self.close();
        }
    }

    /// Parses the header of a table, whose opening bracket is pending: a key in brackets.
    fn parse_table_header(&mut self)
        requires
            old(self).inv(),
            old(self).top() == SyntaxKind::TABLE_HEADER,
            old(self).current == Some(SyntaxKind::BRACKET_START),
        ensures
            final(self).inv(),
            final(self).follows(old(self)),
            final(self).remaining() < old(self).remaining(),
            final(self).has_read(
                old(self),
                header_end(old(self).source(), old(self).lexer.position()),
            ),
    {
        self.bump();
        self.open(SyntaxKind::KEY);
        self.parse_key();
        self.close();
        self.expect(SyntaxKind::BRACKET_END, "expected \"]\"");
    }

    /// Whether the text that the lexer has not reached yet starts with the byte `b`.
    fn next_byte_is(&self, b: u8) -> (r: bool)
        requires
            self.inv(),
        ensures
            r == has_byte(self.source(), self.lexer.position(), b),
    {
        let rest = self.lexer.remainder().as_bytes();
        rest.len() > 0 && rest[0] == b
    }

    /// Parses the header of an array of tables, whose first opening bracket is pending: a
    /// key in double brackets. The two brackets of a pair stand side by side.
    fn parse_table_array_header(&mut self)
        requires
            old(self).inv(),
            old(self).top() == SyntaxKind::TABLE_ARRAY_HEADER,
            old(self).current == Some(SyntaxKind::BRACKET_START),
            has_byte(old(self).source(), old(self).lexer.position(), CH_BRACKET_OPEN),
        ensures
            final(self).inv(),
            final(self).follows(old(self)),
            final(self).remaining() < old(self).remaining(),
            final(self).has_read(
                old(self),
                array_header_end(old(self).source(), old(self).lexer.position()),
            ),
    {
        let ghost bytes = self.source();
        self.bump();
        proof {
            lemma_punctuation_next(bytes, self.pos as int);
        }
        self.expect(SyntaxKind::BRACKET_START, "expected \"[[\"");
        self.open(SyntaxKind::KEY);
        self.parse_key();
        self.close();
        if self.expect(SyntaxKind::BRACKET_END, "expected \"]]\"") {
            if self.next_byte_is(CH_BRACKET_CLOSE) {
                proof {
                    if self.current is None {
                        lemma_punctuation_next(bytes, self.pos as int);
                    }
                }
                self.expect(SyntaxKind::BRACKET_END, "expected \"]]\"");
            } else {
                self.error("expected \"]]\"");
            }
        }
    }

    /// Parses the document: entries and table headers, one to a line.
    fn parse_root(&mut self)
        requires
            old(self).inv(),
            old(self).top() == SyntaxKind::ROOT,
            old(self).current is None,
        ensures
            final(self).inv(),
            final(self).follows(old(self)),
            final(self).remaining() == 0,
            final(self).current is None,
            final(self).clean_since(old(self)) <==> is_document_from(
                old(self).source(),
                old(self).pos as int,
                false,
            ),
    {
        let ghost bytes = self.source();
        let ghost total = is_document_from(bytes, self.pos as int, false);
        let mut line_taken = false;
        let mut line_reported = false;
        loop
            invariant
                self.inv(),
                self.follows(old(self)),
                bytes == self.source(),
                total == is_document_from(bytes, old(self).pos as int, false),
                self.top() == SyntaxKind::ROOT,
                self.clean_since(old(self)) ==> self.current is None && total == is_document_from(
                    bytes,
                    self.pos as int,
                    line_taken,
                ),
                !self.clean_since(old(self)) ==> !total,
                line_reported ==> !self.clean_since(old(self)),
            decreases self.remaining(),
        {
            let ghost before = *self;
            proof {
                lemma_next_token_bounds(bytes, self.pos as int);
            }
            let kind = match self.peek() {
                Some(kind) => kind,
                None => {
                    return ;
                },
            };
            let ghost peeked = *self;
            proof {
                if peeked.clean_since(old(self)) {
                    assert(before.clean_since(old(self)));
                    assert(before.at() == peeked.at());
                    assert(total == is_document_from(bytes, before.pos as int, line_taken));
                }
            }
            if kind == SyntaxKind::NEWLINE {
                line_taken = false;
                line_reported = false;
                self.bump();
            } else if line_taken {
                if !line_reported {
                    self.error("expected new line");
                    line_reported = true;
                }
                self.bump_as(SyntaxKind::ERROR);
            } else if kind == SyntaxKind::BRACKET_START {
                line_taken = true;
                proof {
                    lemma_lex_token_bracket(bytes.skip(self.pos as int));
                    assert(self.lexer.position() == self.pos + 1);
                }
                if self.next_byte_is(CH_BRACKET_OPEN) {
                    self.open(SyntaxKind::TABLE_ARRAY_HEADER);
                    self.parse_table_array_header();
                    self.close();
                } else {
                    self.open(SyntaxKind::TABLE_HEADER);
                    self.parse_table_header();
                    self.close();
                }
            } else {
                line_taken = true;
                let start: usize = self.pos;
                self.open(SyntaxKind::ENTRY);
                self.parse_entry();
                self.close();
                if self.pos == start {
                    match self.peek() {
                        Some(_) => {
                            self.bump_as(SyntaxKind::ERROR);
                        },
                        None => {
                            return ;
                        },
                    }
                }
            }
        }
    }
}

/// A byte of punctuation comes next as a token of its own.
proof fn lemma_punctuation_next(bytes: Seq<u8>, pos: int)
    requires
        0 <= pos < bytes.len(),
        punctuation(bytes[pos]) is Some,
    ensures
        next_token(bytes, pos) == (Next::Token {
            kind: punctuation(bytes[pos])->0,
            start: pos,
            end: pos + 1,
        }),
{
    lemma_lex_token_punctuation(bytes.skip(pos));
}

/// What the parser promises of the tree that it gives for the source text `source`.
///
/// - The tree holds `source`, and its root is a `ROOT`.
/// - The tree is well-formed. So it is lossless: the text under its leaf tokens, in
///   document order, is `source`.
/// - Every leaf token is a token of the lexer, of the kind that the lexer found or of a
///   kind for which the parser may take it.
/// - Where `source` is a syntactically valid document, every token stands in a node in
///   which a token of its kind may stand, so that there is no `ERROR` token; and every
///   node spans what the grammar calls by the node's kind.
pub open spec fn is_parse_tree(tree: SyntaxTree, source: Seq<char>) -> bool {
    let bytes = encode_utf8(source);
    &&& tree.source@ == source
    &&& tree.root.kind == SyntaxKind::ROOT
    &&& tree.well_formed()
    &&& tree.root.all_tokens(lexed_in(bytes))
    &&& is_valid_document(bytes) ==> tree.root.all_tokens(well_placed())
    &&& is_valid_document(bytes) ==> tree.root.all_nodes(constructs_in(bytes))
}

/// Parses `source` into a syntax tree. The tree is always there and always holds the whole
/// source: the text under its leaf tokens, in document order, is `source`. What is wrong
/// with the source is told in `errors`, and there is no error exactly where `source` is a
/// syntactically valid document. Each diagnostic points at a fault: at the token, or at
/// the end of the source, where the parser did not find what it looked for, or into the
/// comment or string that holds what it may not hold; and of every comment and string in
/// the tree, the diagnostics tell all that its validator finds.
pub fn parse(source: &str) -> (r: Parse)
    ensures
        is_parse_tree(r.tree, source@),
        r.tree.root.leaf_text(source.spec_bytes()) == source.spec_bytes(),
        r.errors@.len() == 0 <==> is_valid_document(source.spec_bytes()),
        r.tree.root.all_tokens(content_reported(source.spec_bytes(), r.errors@)),
        forall|i: int|
            0 <= i < r.errors@.len() ==> (#[trigger] r.errors@[i]).offset
                <= source.spec_bytes().len() && is_fault(
                source.spec_bytes(),
                r.errors@[i].offset as int,
                r.errors@[i].message@,
            ),
{
    let mut builder = TreeBuilder::new(source);
    builder.start_node(SyntaxKind::ROOT);
    let mut parser = Parser {
        lexer: Lexer::new(source),
        builder,
        current: None,
        errors: Vec::new(),
        pos: 0,
        len: byte_len(source),
    };
    assert(parser.open_nodes() =~= seq![(SyntaxKind::ROOT, 0usize)]);
    parser.parse_root();
    assert(parser.open_nodes()[0] == (SyntaxKind::ROOT, 0usize));
    let Parser { builder, errors, .. } = parser;
    let mut builder = builder;
    builder.finish_node();
    let tree = builder.finish();
    proof {
        tree.lemma_lossless();
    }
    Parse { tree, errors }
}

} // verus!
