//! The formatter: from a syntax tree to text in which only the layout has changed.
//!
//! Every token that is not layout is copied as it stands, in the order in which it
//! stands. What goes between two tokens depends on the two tokens, on the line breaks and
//! blanks that stood between them, and on the options.

use crate::parser::{is_parse_tree, parse};
use crate::scan::{CH_CR, CH_LF, CH_SPACE, CH_TAB};
use crate::syntax::SyntaxKind;
use crate::text::{lemma_between_boundaries_valid, lemma_valid_then_ascii, string_from_utf8};
use crate::tree::{
    elements_leaf_text, layout_holds, span_text, Element, Node, SyntaxTree, TextRange,
};
use vstd::prelude::*;
use vstd::string::StringSliceAdditionalSpecFns;
use vstd::utf8::{encode_utf8, encode_utf8_valid_utf8, valid_utf8};

verus! {

/// How the formatter lays a document out.
#[derive(Debug, Clone, Copy, PartialEq, Eq, Structural)]
pub struct Options {
    /// Write `key=value` in place of `key = value`. Off by default.
    pub compact_entries: bool,
    /// Write `[1, 2]` in place of `[ 1, 2 ]`. On by default.
    pub compact_arrays: bool,
    /// Write `{a = 1}` in place of `{ a = 1 }`. Off by default.
    pub compact_inline_tables: bool,
    /// The number of blanks by which a line inside an array or an inline table is
    /// indented for each array or inline table around it. 2 by default.
    pub indent_width: usize,
    /// The greatest number of empty lines that may follow each other. 2 by default.
    pub allowed_blank_lines: usize,
    /// End a document that holds anything with a line break. On by default.
    pub trailing_newline: bool,
    /// Break lines with carriage return and line feed in place of line feed alone. Off by
    /// default.
    pub crlf: bool,
}

impl Default for Options {
    fn default() -> (r: Self)
        ensures
            r == (Options {
                compact_entries: false,
                compact_arrays: true,
                compact_inline_tables: false,
                indent_width: 2,
                allowed_blank_lines: 2,
                trailing_newline: true,
                crlf: false,
            }),
    {
        Options {
            compact_entries: false,
            compact_arrays: true,
            compact_inline_tables: false,
            indent_width: 2,
            allowed_blank_lines: 2,
            trailing_newline: true,
            crlf: false,
        }
    }
}

/// What a token is to the layout around it.
#[derive(Debug, Clone, Copy, PartialEq, Eq, Structural)]
pub enum Mark {
    /// `[` of a table header.
    HeaderOpen,
    /// `]` of a table header.
    HeaderClose,
    /// `[` of an array.
    ArrayOpen,
    /// `]` of an array.
    ArrayClose,
    /// `{`.
    TableOpen,
    /// `}`.
    TableClose,
    Equals,
    Comma,
    Period,
    Comment,
    /// A time of day, alone or after a date, with no offset from UTC after it. Where a
    /// comma follows it directly, the lexer takes the comma for the start of a fraction.
    Time,
    /// A decimal integer. Where a period follows it directly, the lexer takes the period
    /// for the start of a fraction.
    Integer,
    /// Any other token.
    Word,
}

/// A leaf token with what the formatter needs of its place in the tree: the number of
/// arrays and inline tables around it, and the kind of the node that holds it.
pub struct Leaf {
    pub kind: SyntaxKind,
    pub span: TextRange,
    pub depth: usize,
    pub parent: SyntaxKind,
}

/// What has gone by since the last token that was written: what that token was, the
/// line breaks since then, counted up to the limit, and whether a blank stood there.
#[derive(Debug, Clone, Copy, PartialEq, Eq, Structural)]
pub struct Pending {
    pub prev: Option<Mark>,
    pub breaks: usize,
    pub blank: bool,
}

/// Whether a token of kind `kind` is layout, which the formatter writes anew.
pub open spec fn is_layout(kind: SyntaxKind) -> bool {
    kind == SyntaxKind::WHITESPACE || kind == SyntaxKind::NEWLINE
}

/// Whether a node of kind `kind` indents the lines inside it.
pub open spec fn nests(kind: SyntaxKind) -> bool {
    kind == SyntaxKind::ARRAY || kind == SyntaxKind::INLINE_TABLE
}

/// The depth one level further in; it stays where no greater number can be held.
pub open spec fn deeper(depth: usize) -> usize {
    if depth < usize::MAX {
        (depth + 1) as usize
    } else {
        depth
    }
}

/// The depth at which the children of a node of kind `kind` stand, where the node stands
/// at depth `depth`.
pub open spec fn child_depth(kind: SyntaxKind, depth: usize) -> usize {
    if nests(kind) {
        deeper(depth)
    } else {
        depth
    }
}

/// The leaf tokens under `element`, in document order, where `element` stands at depth
/// `depth` in a node of kind `parent`.
pub open spec fn element_leaves(element: Element, depth: usize, parent: SyntaxKind) -> Seq<Leaf>
    decreases element,
{
    match element {
        Element::Token(t) => seq![Leaf { kind: t.kind, span: t.span, depth, parent }],
        Element::Node(n) => elements_leaves(n.children@, child_depth(n.kind, depth), n.kind),
    }
}

/// The leaf tokens under `elements`, in document order.
pub open spec fn elements_leaves(elements: Seq<Element>, depth: usize, parent: SyntaxKind) -> Seq<
    Leaf,
>
    decreases elements,
{
    if elements.len() == 0 {
        Seq::empty()
    } else {
        elements_leaves(elements.drop_last(), depth, parent) + element_leaves(
            elements.last(),
            depth,
            parent,
        )
    }
}

/// What a token of kind `kind` in a node of kind `parent` is to the layout.
pub open spec fn mark_of(kind: SyntaxKind, parent: SyntaxKind) -> Mark {
    let in_header = parent == SyntaxKind::TABLE_HEADER || parent
        == SyntaxKind::TABLE_ARRAY_HEADER;
    if kind == SyntaxKind::BRACKET_START {
        if in_header {
            Mark::HeaderOpen
        } else {
            Mark::ArrayOpen
        }
    } else if kind == SyntaxKind::BRACKET_END {
        if in_header {
            Mark::HeaderClose
        } else {
            Mark::ArrayClose
        }
    } else if kind == SyntaxKind::BRACE_START {
        Mark::TableOpen
    } else if kind == SyntaxKind::BRACE_END {
        Mark::TableClose
    } else if kind == SyntaxKind::EQ {
        Mark::Equals
    } else if kind == SyntaxKind::COMMA {
        Mark::Comma
    } else if kind == SyntaxKind::PERIOD {
        Mark::Period
    } else if kind == SyntaxKind::COMMENT {
        Mark::Comment
    } else if kind == SyntaxKind::TIME || kind == SyntaxKind::DATE_TIME_LOCAL {
        Mark::Time
    } else if kind == SyntaxKind::INTEGER {
        Mark::Integer
    } else {
        Mark::Word
    }
}

/// The number of blanks between two tokens on one line: `prev`, which has been written,
/// and `next`. `blank` says whether a blank stood between them in the source; it decides
/// where no rule does, and where joining the two would make one token of them: between a
/// time and a comma, and between an integer and a period.
pub open spec fn gap(prev: Mark, next: Mark, blank: bool, options: Options) -> usize {
    let one: usize = 1;
    let none: usize = 0;
    if next == Mark::Comment {
        one
    } else if next == Mark::Equals || prev == Mark::Equals {
        if options.compact_entries {
            none
        } else {
            one
        }
    } else if next == Mark::Comma {
        if prev == Mark::Time && blank {
            one
        } else {
            none
        }
    } else if next == Mark::Period && prev == Mark::Integer && blank {
        one
    } else if next == Mark::Period || prev == Mark::Period {
        none
    } else if prev == Mark::HeaderOpen || next == Mark::HeaderClose {
        none
    } else if prev == Mark::ArrayOpen && next == Mark::ArrayClose {
        none
    } else if prev == Mark::ArrayOpen || next == Mark::ArrayClose {
        if options.compact_arrays {
            none
        } else {
            one
        }
    } else if prev == Mark::TableOpen && next == Mark::TableClose {
        none
    } else if prev == Mark::TableOpen || next == Mark::TableClose {
        if options.compact_inline_tables {
            none
        } else {
            one
        }
    } else if prev == Mark::Comma {
        one
    } else if blank {
        one
    } else {
        none
    }
}

/// `n` blanks.
pub open spec fn blanks(n: int) -> Seq<u8> {
    Seq::new(
        if n >= 0 {
            n as nat
        } else {
            0
        },
        |i: int| CH_SPACE,
    )
}

/// One line break.
pub open spec fn line_break(crlf: bool) -> Seq<u8> {
    if crlf {
        seq![CH_CR, CH_LF]
    } else {
        seq![CH_LF]
    }
}

/// `n` line breaks.
pub open spec fn line_breaks(n: int, crlf: bool) -> Seq<u8>
    decreases n,
{
    if n <= 0 {
        Seq::empty()
    } else {
        line_breaks(n - 1, crlf) + line_break(crlf)
    }
}

/// Whether `mark` is a bracket or a brace of an array or an inline table.
pub open spec fn is_fence(mark: Mark) -> bool {
    mark == Mark::ArrayOpen || mark == Mark::ArrayClose || mark == Mark::TableOpen || mark
        == Mark::TableClose
}

/// The depth by which a line that starts with a token of mark `mark` is indented. The
/// brackets of an array and the braces of an inline table stand one level further out than
/// what they hold.
pub open spec fn indent_depth(mark: Mark, depth: usize) -> int {
    if is_fence(mark) && depth > 0 {
        depth - 1
    } else {
        depth as int
    }
}

/// What is written between the last token and the next, which is of mark `next` and
/// stands at depth `depth`. Nothing before the first token. After line breaks, the line
/// breaks and the indentation of the new line. On one line, the gap between the two.
pub open spec fn separator(pending: Pending, next: Mark, depth: usize, options: Options) -> Seq<
    u8,
> {
    match pending.prev {
        None => Seq::empty(),
        Some(prev) => if pending.breaks > 0 {
            line_breaks(pending.breaks as int, options.crlf) + blanks(
                indent_depth(next, depth) * options.indent_width,
            )
        } else {
            blanks(gap(prev, next, pending.blank, options) as int)
        },
    }
}

/// The number of line feeds in `s[..n]`.
pub open spec fn count_line_feeds(s: Seq<u8>, n: int) -> nat
    decreases n,
{
    if n <= 0 {
        0
    } else {
        count_line_feeds(s, n - 1) + if n <= s.len() && s[n - 1] == CH_LF {
            1nat
        } else {
            0nat
        }
    }
}

/// The greatest number of line breaks that may follow each other: one to end the line
/// and one for each empty line that is allowed.
pub open spec fn break_limit(options: Options) -> usize {
    deeper(options.allowed_blank_lines)
}

/// `a + b`, but no more than `limit`.
pub open spec fn capped_sum(a: int, b: int, limit: int) -> int {
    if a + b <= limit {
        a + b
    } else {
        limit
    }
}

/// What has gone by after `leaf`, where `pending` had gone by before it.
pub open spec fn advance(
    pending: Pending,
    leaf: Leaf,
    source: Seq<u8>,
    options: Options,
) -> Pending {
    if leaf.kind == SyntaxKind::WHITESPACE {
        Pending { prev: pending.prev, breaks: pending.breaks, blank: true }
    } else if leaf.kind == SyntaxKind::NEWLINE {
        Pending {
            prev: pending.prev,
            breaks: capped_sum(
                pending.breaks as int,
                count_line_feeds(
                    span_text(source, leaf.span),
                    span_text(source, leaf.span).len() as int,
                ) as int,
                break_limit(options) as int,
            ) as usize,
            blank: pending.blank,
        }
    } else {
        Pending { prev: Some(mark_of(leaf.kind, leaf.parent)), breaks: 0, blank: false }
    }
}

/// What is written for `leaf`: nothing for layout; for any other token, what separates
/// it from the token before, and its text as it stands in the source.
pub open spec fn piece(pending: Pending, leaf: Leaf, source: Seq<u8>, options: Options) -> Seq<u8> {
    if is_layout(leaf.kind) {
        Seq::empty()
    } else {
        separator(pending, mark_of(leaf.kind, leaf.parent), leaf.depth, options) + span_text(
            source,
            leaf.span,
        )
    }
}

/// What has gone by after `leaves`, where `start` had gone by before them.
pub open spec fn pending_after(
    leaves: Seq<Leaf>,
    start: Pending,
    source: Seq<u8>,
    options: Options,
) -> Pending
    decreases leaves.len(),
{
    if leaves.len() == 0 {
        start
    } else {
        advance(
            pending_after(leaves.drop_last(), start, source, options),
            leaves.last(),
            source,
            options,
        )
    }
}

/// What is written for `leaves`, where `start` had gone by before them.
pub open spec fn rendered(
    leaves: Seq<Leaf>,
    start: Pending,
    source: Seq<u8>,
    options: Options,
) -> Seq<u8>
    decreases leaves.len(),
{
    if leaves.len() == 0 {
        Seq::empty()
    } else {
        rendered(leaves.drop_last(), start, source, options) + piece(
            pending_after(leaves.drop_last(), start, source, options),
            leaves.last(),
            source,
            options,
        )
    }
}

/// Nothing has been written yet.
pub open spec fn nothing_pending() -> Pending {
    Pending { prev: None, breaks: 0, blank: false }
}

/// The formatted text of the document whose leaf tokens are `leaves`: what is written
/// for the leaves and, where the options ask for it and the document holds a token, a
/// line break at the end.
pub open spec fn formatted_leaves(leaves: Seq<Leaf>, source: Seq<u8>, options: Options) -> Seq<u8> {
    rendered(leaves, nothing_pending(), source, options) + if options.trailing_newline
        && pending_after(leaves, nothing_pending(), source, options).prev is Some {
        line_break(options.crlf)
    } else {
        Seq::empty()
    }
}

/// The formatted text of the document that `tree` holds.
pub open spec fn formatted(tree: SyntaxTree, options: Options) -> Seq<u8> {
    formatted_leaves(
        element_leaves(Element::Node(tree.root), 0, SyntaxKind::ROOT),
        tree.source_bytes(),
        options,
    )
}

/// What is written for two stretches of leaves is what is written for the first and then
/// for the second.
pub proof fn lemma_rendered_concat(
    a: Seq<Leaf>,
    b: Seq<Leaf>,
    start: Pending,
    source: Seq<u8>,
    options: Options,
)
    ensures
        pending_after(a + b, start, source, options) == pending_after(
            b,
            pending_after(a, start, source, options),
            source,
            options,
        ),
        rendered(a + b, start, source, options) == rendered(a, start, source, options) + rendered(
            b,
            pending_after(a, start, source, options),
            source,
            options,
        ),
    decreases b.len(),
{
    if b.len() == 0 {
        assert(a + b =~= a);
        assert(rendered(a, start, source, options) + Seq::<u8>::empty() =~= rendered(
            a,
            start,
            source,
            options,
        ));
    } else {
        assert((a + b).drop_last() =~= a + b.drop_last());
        assert((a + b).last() == b.last());
        lemma_rendered_concat(a, b.drop_last(), start, source, options);
        let mid = pending_after(a, start, source, options);
        assert(rendered(a + b, start, source, options) =~= rendered(a, start, source, options)
            + rendered(b, mid, source, options));
    }
}

/// What is written for a single leaf.
pub proof fn lemma_rendered_one(leaf: Leaf, start: Pending, source: Seq<u8>, options: Options)
    ensures
        pending_after(seq![leaf], start, source, options) == advance(start, leaf, source, options),
        rendered(seq![leaf], start, source, options) == piece(start, leaf, source, options),
{
    let one = seq![leaf];
    let none = Seq::<Leaf>::empty();
    assert(one.drop_last() =~= none);
    assert(one.last() == leaf);
    assert(pending_after(none, start, source, options) == start);
    assert(rendered(none, start, source, options) == Seq::<u8>::empty());
    assert(rendered(one, start, source, options) =~= piece(start, leaf, source, options));
}

fn mark(kind: SyntaxKind, parent: SyntaxKind) -> (r: Mark)
    ensures
        r == mark_of(kind, parent),
{
    let in_header = parent == SyntaxKind::TABLE_HEADER || parent
        == SyntaxKind::TABLE_ARRAY_HEADER;
    if kind == SyntaxKind::BRACKET_START {
        if in_header {
            Mark::HeaderOpen
        } else {
            Mark::ArrayOpen
        }
    } else if kind == SyntaxKind::BRACKET_END {
        if in_header {
            Mark::HeaderClose
        } else {
            Mark::ArrayClose
        }
    } else if kind == SyntaxKind::BRACE_START {
        Mark::TableOpen
    } else if kind == SyntaxKind::BRACE_END {
        Mark::TableClose
    } else if kind == SyntaxKind::EQ {
        Mark::Equals
    } else if kind == SyntaxKind::COMMA {
        Mark::Comma
    } else if kind == SyntaxKind::PERIOD {
        Mark::Period
    } else if kind == SyntaxKind::COMMENT {
        Mark::Comment
    } else if kind == SyntaxKind::TIME || kind == SyntaxKind::DATE_TIME_LOCAL {
        Mark::Time
    } else if kind == SyntaxKind::INTEGER {
        Mark::Integer
    } else {
        Mark::Word
    }
}

fn gap_between(prev: Mark, next: Mark, blank: bool, options: &Options) -> (r: usize)
    ensures
        r == gap(prev, next, blank, *options),
{
    if next == Mark::Comment {
        1
    } else if next == Mark::Equals || prev == Mark::Equals {
        if options.compact_entries {
            0
        } else {
            1
        }
    } else if next == Mark::Comma {
        if prev == Mark::Time && blank {
            1
        } else {
            0
        }
    } else if next == Mark::Period && prev == Mark::Integer && blank {
        1
    } else if next == Mark::Period || prev == Mark::Period {
        0
    } else if prev == Mark::HeaderOpen || next == Mark::HeaderClose {
        0
    } else if prev == Mark::ArrayOpen && next == Mark::ArrayClose {
        0
    } else if prev == Mark::ArrayOpen || next == Mark::ArrayClose {
        if options.compact_arrays {
            0
        } else {
            1
        }
    } else if prev == Mark::TableOpen && next == Mark::TableClose {
        0
    } else if prev == Mark::TableOpen || next == Mark::TableClose {
        if options.compact_inline_tables {
            0
        } else {
            1
        }
    } else if prev == Mark::Comma {
        1
    } else if blank {
        1
    } else {
        0
    }
}

/// Writes one ASCII byte.
fn push_ascii(out: &mut Vec<u8>, b: u8)
    requires
        b < 0x80,
        valid_utf8(old(out)@),
    ensures
        final(out)@ == old(out)@.push(b),
        valid_utf8(final(out)@),
{
    out.push(b);
    proof {
        lemma_valid_then_ascii(old(out)@, seq![b]);
        assert(old(out)@ + seq![b] =~= old(out)@.push(b));
    }
}

/// Writes `n` blanks.
fn push_blanks(out: &mut Vec<u8>, n: usize)
    requires
        valid_utf8(old(out)@),
    ensures
        final(out)@ == old(out)@ + blanks(n as int),
        valid_utf8(final(out)@),
{
    let mut i: usize = 0;
    while i < n
        invariant
            i <= n,
            out@ == old(out)@ + blanks(i as int),
            valid_utf8(out@),
        decreases n - i,
    {
        push_ascii(out, CH_SPACE);
        i += 1;
        assert(out@ =~= old(out)@ + blanks(i as int));
    }
}

/// Writes the indentation of a line `levels` levels deep.
fn push_indent(out: &mut Vec<u8>, levels: usize, width: usize)
    requires
        valid_utf8(old(out)@),
    ensures
        final(out)@ == old(out)@ + blanks(levels * width),
        valid_utf8(final(out)@),
{
    let mut i: usize = 0;
    while i < levels
        invariant
            i <= levels,
            out@ == old(out)@ + blanks(i * width),
            valid_utf8(out@),
        decreases levels - i,
    {
        push_blanks(out, width);
        proof {
            assert((i + 1) * width == i * width + width) by (nonlinear_arith);
            assert(0 <= i * width) by (nonlinear_arith);
            assert(blanks(i * width) + blanks(width as int) =~= blanks((i + 1) * width));
            assert(out@ =~= old(out)@ + blanks((i + 1) * width));
        }
        i += 1;
    }
}

/// Writes `n` line breaks.
fn push_line_breaks(out: &mut Vec<u8>, n: usize, crlf: bool)
    requires
        valid_utf8(old(out)@),
    ensures
        final(out)@ == old(out)@ + line_breaks(n as int, crlf),
        valid_utf8(final(out)@),
{
    let mut i: usize = 0;
    while i < n
        invariant
            i <= n,
            out@ == old(out)@ + line_breaks(i as int, crlf),
            valid_utf8(out@),
        decreases n - i,
    {
        if crlf {
            push_ascii(out, CH_CR);
        }
        push_ascii(out, CH_LF);
        i += 1;
        assert(out@ =~= old(out)@ + line_breaks(i as int, crlf));
    }
}

/// Writes the bytes of `source[start..end]`, which lie between two character boundaries.
fn push_text(out: &mut Vec<u8>, source: &[u8], start: usize, end: usize)
    requires
        start <= end <= source@.len(),
        valid_utf8(old(out)@),
        valid_utf8(source@.subrange(start as int, end as int)),
    ensures
        final(out)@ == old(out)@ + source@.subrange(start as int, end as int),
        valid_utf8(final(out)@),
{
    let mut i: usize = start;
    while i < end
        invariant
            start <= i <= end <= source@.len(),
            out@ == old(out)@ + source@.subrange(start as int, i as int),
        decreases end - i,
    {
        out.push(source[i]);
        i += 1;
        assert(out@ =~= old(out)@ + source@.subrange(start as int, i as int));
    }
    proof {
        vstd::utf8::valid_utf8_concat(old(out)@, source@.subrange(start as int, end as int));
    }
}

/// Adds the line feeds of `source[start..end]` to `already`, up to `limit`.
fn add_line_feeds(source: &[u8], start: usize, end: usize, already: usize, limit: usize) -> (r:
    usize)
    requires
        start <= end <= source@.len(),
        already <= limit,
    ensures
        r == capped_sum(
            already as int,
            count_line_feeds(
                source@.subrange(start as int, end as int),
                end - start,
            ) as int,
            limit as int,
        ),
        r <= limit,
{
    let ghost text = source@.subrange(start as int, end as int);
    let mut breaks: usize = already;
    let mut i: usize = start;
    while i < end
        invariant
            start <= i <= end <= source@.len(),
            text == source@.subrange(start as int, end as int),
            already <= limit,
            breaks == capped_sum(
                already as int,
                count_line_feeds(text, i - start) as int,
                limit as int,
            ),
        decreases end - i,
    {
        if source[i] == CH_LF && breaks < limit {
            breaks += 1;
        }
        i += 1;
        assert(text[i - start - 1] == source@[i - 1]);
    }
    breaks
}

/// Writes what separates the last token from one of mark `next` at depth `depth`.
fn write_separator(
    out: &mut Vec<u8>,
    pending: &Pending,
    next: Mark,
    depth: usize,
    options: &Options,
)
    requires
        valid_utf8(old(out)@),
    ensures
        final(out)@ == old(out)@ + separator(*pending, next, depth, *options),
        valid_utf8(final(out)@),
{
    match pending.prev {
        None => {
            assert(out@ =~= old(out)@ + Seq::<u8>::empty());
        },
        Some(prev) => {
            if pending.breaks > 0 {
                push_line_breaks(out, pending.breaks, options.crlf);
                let fence = next == Mark::ArrayOpen || next == Mark::ArrayClose || next
                    == Mark::TableOpen || next == Mark::TableClose;
                let levels: usize = if fence && depth > 0 {
                    depth - 1
                } else {
                    depth
                };
                push_indent(out, levels, options.indent_width);
                assert(out@ =~= old(out)@ + (line_breaks(pending.breaks as int, options.crlf)
                    + blanks(levels * options.indent_width)));
            } else {
                push_blanks(out, gap_between(prev, next, pending.blank, options));
            }
        },
    }
}

/// Writes what is due for `token`, and notes what has gone by after it.
fn format_token(
    token: &crate::tree::Token,
    depth: usize,
    parent: SyntaxKind,
    source: &[u8],
    options: &Options,
    pending: &mut Pending,
    out: &mut Vec<u8>,
)
    requires
        token.grounded(source@),
        valid_utf8(source@),
        valid_utf8(old(out)@),
        old(pending).breaks <= break_limit(*options),
    ensures
        final(out)@ == old(out)@ + piece(
            *old(pending),
            Leaf { kind: token.kind, span: token.span, depth, parent },
            source@,
            *options,
        ),
        *final(pending) == advance(
            *old(pending),
            Leaf { kind: token.kind, span: token.span, depth, parent },
            source@,
            *options,
        ),
        valid_utf8(final(out)@),
        final(pending).breaks <= break_limit(*options),
{
    let start: usize = token.span.start;
    let end: usize = token.span.end;
    if token.kind == SyntaxKind::WHITESPACE {
        pending.blank = true;
        assert(out@ =~= old(out)@ + Seq::<u8>::empty());
    } else if token.kind == SyntaxKind::NEWLINE {
        let limit: usize = if options.allowed_blank_lines < usize::MAX {
            options.allowed_blank_lines + 1
        } else {
            options.allowed_blank_lines
        };
        pending.breaks = add_line_feeds(source, start, end, pending.breaks, limit);
        assert(out@ =~= old(out)@ + Seq::<u8>::empty());
    } else {
        let next = mark(token.kind, parent);
        write_separator(out, pending, next, depth, options);
        proof {
            lemma_between_boundaries_valid(source@, start as int, end as int);
        }
        push_text(out, source, start, end);
        pending.prev = Some(next);
        pending.breaks = 0;
        pending.blank = false;
        assert(out@ =~= old(out)@ + (separator(*old(pending), next, depth, *options)
            + span_text(source@, token.span)));
    }
}

/// Writes what is due for `element` and all that lies under it.
fn format_element(
    element: &Element,
    depth: usize,
    parent: SyntaxKind,
    source: &[u8],
    options: &Options,
    pending: &mut Pending,
    out: &mut Vec<u8>,
)
    requires
        element.grounded(source@),
        valid_utf8(source@),
        valid_utf8(old(out)@),
        old(pending).breaks <= break_limit(*options),
    ensures
        final(out)@ == old(out)@ + rendered(
            element_leaves(*element, depth, parent),
            *old(pending),
            source@,
            *options,
        ),
        *final(pending) == pending_after(
            element_leaves(*element, depth, parent),
            *old(pending),
            source@,
            *options,
        ),
        valid_utf8(final(out)@),
        final(pending).breaks <= break_limit(*options),
    decreases element,
{
    match element {
        Element::Token(token) => {
            proof {
                lemma_rendered_one(
                    Leaf { kind: token.kind, span: token.span, depth, parent },
                    *pending,
                    source@,
                    *options,
                );
            }
            format_token(token, depth, parent, source, options, pending, out);
        },
        Element::Node(node) => {
            format_node(node, depth, source, options, pending, out);
        },
    }
}

/// Writes what is due for all that lies under `node`, which stands at depth `depth`.
fn format_node(
    node: &Node,
    depth: usize,
    source: &[u8],
    options: &Options,
    pending: &mut Pending,
    out: &mut Vec<u8>,
)
    requires
        node.grounded(source@),
        valid_utf8(source@),
        valid_utf8(old(out)@),
        old(pending).breaks <= break_limit(*options),
    ensures
        final(out)@ == old(out)@ + rendered(
            elements_leaves(node.children@, child_depth(node.kind, depth), node.kind),
            *old(pending),
            source@,
            *options,
        ),
        *final(pending) == pending_after(
            elements_leaves(node.children@, child_depth(node.kind, depth), node.kind),
            *old(pending),
            source@,
            *options,
        ),
        valid_utf8(final(out)@),
        final(pending).breaks <= break_limit(*options),
    decreases node,
{
    let inner: usize = if node.kind == SyntaxKind::ARRAY || node.kind
        == SyntaxKind::INLINE_TABLE {
        if depth < usize::MAX {
            depth + 1
        } else {
            depth
        }
    } else {
        depth
    };
    let mut i: usize = 0;
    assert(node.children@.subrange(0, 0) =~= Seq::<Element>::empty());
    assert(out@ =~= old(out)@ + Seq::<u8>::empty());
    while i < node.children.len()
        invariant
            i <= node.children@.len(),
            inner == child_depth(node.kind, depth),
            node.grounded(source@),
            valid_utf8(source@),
            valid_utf8(out@),
            pending.breaks <= break_limit(*options),
            out@ == old(out)@ + rendered(
                elements_leaves(node.children@.subrange(0, i as int), inner, node.kind),
                *old(pending),
                source@,
                *options,
            ),
            *pending == pending_after(
                elements_leaves(node.children@.subrange(0, i as int), inner, node.kind),
                *old(pending),
                source@,
                *options,
            ),
        decreases node.children@.len() - i,
    {
        let ghost done = elements_leaves(node.children@.subrange(0, i as int), inner, node.kind);
        let child = &node.children[i];
        assert(node.children@[i as int].grounded(source@));
        format_element(child, inner, node.kind, source, options, pending, out);
        proof {
            let more = node.children@.subrange(0, i + 1);
            let under = element_leaves(*child, inner, node.kind);
            assert(more.drop_last() =~= node.children@.subrange(0, i as int));
            assert(more.last() == *child);
            assert(elements_leaves(more, inner, node.kind) == done + under);
            lemma_rendered_concat(done, under, *old(pending), source@, *options);
            assert(out@ =~= old(out)@ + rendered(done + under, *old(pending), source@, *options));
        }
        i += 1;
    }
    assert(node.children@.subrange(0, i as int) =~= node.children@);
}

/// Whether `b` is a byte of layout: a blank, a tab, a line feed or a carriage return.
pub open spec fn is_layout_byte(b: u8) -> bool {
    b == CH_SPACE || b == CH_TAB || b == CH_LF || b == CH_CR
}

/// `s` without its bytes of layout.
pub open spec fn without_layout(s: Seq<u8>) -> Seq<u8>
    decreases s.len(),
{
    if s.len() == 0 {
        s
    } else if is_layout_byte(s.last()) {
        without_layout(s.drop_last())
    } else {
        without_layout(s.drop_last()).push(s.last())
    }
}

/// Whether `s` holds layout only.
pub open spec fn is_layout_only(s: Seq<u8>) -> bool {
    forall|i: int| 0 <= i < s.len() ==> is_layout_byte(#[trigger] s[i])
}

/// Taking the layout out of two texts in a row is taking it out of each.
pub proof fn lemma_without_layout_concat(a: Seq<u8>, b: Seq<u8>)
    ensures
        without_layout(a + b) == without_layout(a) + without_layout(b),
    decreases b.len(),
{
    if b.len() == 0 {
        assert(a + b =~= a);
        assert(without_layout(a) + without_layout(b) =~= without_layout(a));
    } else {
        assert((a + b).drop_last() =~= a + b.drop_last());
        assert((a + b).last() == b.last());
        lemma_without_layout_concat(a, b.drop_last());
        assert(without_layout(a + b) =~= without_layout(a) + without_layout(b));
    }
}

/// Nothing is left of a text that holds layout only.
pub proof fn lemma_without_layout_of_layout(s: Seq<u8>)
    requires
        is_layout_only(s),
    ensures
        without_layout(s) == Seq::<u8>::empty(),
    decreases s.len(),
{
    if s.len() > 0 {
        assert(is_layout_byte(s.last()));
        lemma_without_layout_of_layout(s.drop_last());
    } else {
        assert(s =~= Seq::<u8>::empty());
    }
}

/// Line breaks hold layout only.
proof fn lemma_line_breaks_layout(n: int, crlf: bool)
    ensures
        is_layout_only(line_breaks(n, crlf)),
    decreases n,
{
    if n > 0 {
        lemma_line_breaks_layout(n - 1, crlf);
    }
}

/// What the formatter writes between two tokens holds layout only.
pub proof fn lemma_separator_layout(pending: Pending, next: Mark, depth: usize, options: Options)
    ensures
        is_layout_only(separator(pending, next, depth, options)),
{
    lemma_line_breaks_layout(pending.breaks as int, options.crlf);
}

/// The text under `leaves`, in their order.
pub open spec fn leaves_text(leaves: Seq<Leaf>, source: Seq<u8>) -> Seq<u8>
    decreases leaves.len(),
{
    if leaves.len() == 0 {
        Seq::empty()
    } else {
        leaves_text(leaves.drop_last(), source) + span_text(source, leaves.last().span)
    }
}

/// Every layout token among `leaves` spans layout only.
pub open spec fn leaves_hold_layout(leaves: Seq<Leaf>, source: Seq<u8>) -> bool {
    forall|i: int|
        0 <= i < leaves.len() ==> layout_holds(
            (#[trigger] leaves[i]).kind,
            span_text(source, leaves[i].span),
        )
}

/// The text under two stretches of leaves is the text under the first and then under the
/// second.
pub proof fn lemma_leaves_text_concat(a: Seq<Leaf>, b: Seq<Leaf>, source: Seq<u8>)
    ensures
        leaves_text(a + b, source) == leaves_text(a, source) + leaves_text(b, source),
    decreases b.len(),
{
    if b.len() == 0 {
        assert(a + b =~= a);
        assert(leaves_text(a, source) + leaves_text(b, source) =~= leaves_text(a, source));
    } else {
        assert((a + b).drop_last() =~= a + b.drop_last());
        assert((a + b).last() == b.last());
        lemma_leaves_text_concat(a, b.drop_last(), source);
        assert(leaves_text(a + b, source) =~= leaves_text(a, source) + leaves_text(b, source));
    }
}

/// The leaves of a grounded element hold its text, and its layout tokens hold layout
/// only.
pub proof fn lemma_element_leaves(
    element: Element,
    depth: usize,
    parent: SyntaxKind,
    source: Seq<u8>,
)
    requires
        element.grounded(source),
    ensures
        leaves_text(element_leaves(element, depth, parent), source) == element.leaf_text(source),
        leaves_hold_layout(element_leaves(element, depth, parent), source),
    decreases element,
{
    match element {
        Element::Token(t) => {
            let one = element_leaves(element, depth, parent);
            assert(one.drop_last() =~= Seq::<Leaf>::empty());
            assert(leaves_text(one.drop_last(), source) == Seq::<u8>::empty());
            assert(leaves_text(one, source) =~= span_text(source, t.span));
        },
        Element::Node(n) => {
            lemma_elements_leaves(n.children@, child_depth(n.kind, depth), n.kind, source);
        },
    }
}

/// The leaves of grounded elements hold their text, and their layout tokens hold layout
/// only.
pub proof fn lemma_elements_leaves(
    elements: Seq<Element>,
    depth: usize,
    parent: SyntaxKind,
    source: Seq<u8>,
)
    requires
        forall|i: int| 0 <= i < elements.len() ==> (#[trigger] elements[i]).grounded(source),
    ensures
        leaves_text(elements_leaves(elements, depth, parent), source) == elements_leaf_text(
            elements,
            source,
        ),
        leaves_hold_layout(elements_leaves(elements, depth, parent), source),
    decreases elements,
{
    if elements.len() > 0 {
        let init = elements.drop_last();
        assert forall|i: int| 0 <= i < init.len() implies (#[trigger] init[i]).grounded(source) by {
            assert(init[i] == elements[i]);
        }
        lemma_elements_leaves(init, depth, parent, source);
        lemma_element_leaves(elements.last(), depth, parent, source);
        let a = elements_leaves(init, depth, parent);
        let b = element_leaves(elements.last(), depth, parent);
        lemma_leaves_text_concat(a, b, source);
        assert forall|i: int| 0 <= i < (a + b).len() implies layout_holds(
            (#[trigger] (a + b)[i]).kind,
            span_text(source, (a + b)[i].span),
        ) by {
            if i < a.len() {
                assert((a + b)[i] == a[i]);
            } else {
                assert((a + b)[i] == b[i - a.len()]);
            }
        }
    }
}

/// What is written for leaves holds, layout apart, what stands under them.
pub proof fn lemma_rendered_keeps_text(
    leaves: Seq<Leaf>,
    start: Pending,
    source: Seq<u8>,
    options: Options,
)
    requires
        leaves_hold_layout(leaves, source),
    ensures
        without_layout(rendered(leaves, start, source, options)) == without_layout(
            leaves_text(leaves, source),
        ),
    decreases leaves.len(),
{
    if leaves.len() > 0 {
        let init = leaves.drop_last();
        let last = leaves.last();
        assert forall|i: int| 0 <= i < init.len() implies layout_holds(
            (#[trigger] init[i]).kind,
            span_text(source, init[i].span),
        ) by {
            assert(init[i] == leaves[i]);
        }
        lemma_rendered_keeps_text(init, start, source, options);
        let before = pending_after(init, start, source, options);
        let text = span_text(source, last.span);
        let written = piece(before, last, source, options);
        lemma_without_layout_concat(rendered(init, start, source, options), written);
        lemma_without_layout_concat(leaves_text(init, source), text);
        assert(without_layout(written) == without_layout(text)) by {
            assert(layout_holds(last.kind, text));
            if is_layout(last.kind) {
                assert(is_layout_only(text)) by {
                    assert forall|i: int| 0 <= i < text.len() implies is_layout_byte(
                        #[trigger] text[i],
                    ) by {}
                }
                lemma_without_layout_of_layout(text);
            } else {
                let between = separator(
                    before,
                    mark_of(last.kind, last.parent),
                    last.depth,
                    options,
                );
                lemma_separator_layout(
                    before,
                    mark_of(last.kind, last.parent),
                    last.depth,
                    options,
                );
                lemma_without_layout_of_layout(between);
                lemma_without_layout_concat(between, text);
                assert(Seq::<u8>::empty() + without_layout(text) =~= without_layout(text));
            }
        }
    }
}

/// Formatting changes layout only: layout apart, the formatted text of a well-formed tree
/// is its source.
pub proof fn lemma_formatting_changes_layout_only(tree: SyntaxTree, options: Options)
    requires
        tree.well_formed(),
    ensures
        without_layout(formatted(tree, options)) == without_layout(tree.source_bytes()),
{
    let source = tree.source_bytes();
    let leaves = element_leaves(Element::Node(tree.root), 0, SyntaxKind::ROOT);
    lemma_element_leaves(Element::Node(tree.root), 0, SyntaxKind::ROOT, source);
    tree.lemma_lossless();
    lemma_rendered_keeps_text(leaves, nothing_pending(), source, options);
    let body = rendered(leaves, nothing_pending(), source, options);
    let end = if options.trailing_newline && pending_after(
        leaves,
        nothing_pending(),
        source,
        options,
    ).prev is Some {
        line_break(options.crlf)
    } else {
        Seq::empty()
    };
    lemma_without_layout_concat(body, end);
    lemma_without_layout_of_layout(end);
    assert(without_layout(body) + Seq::<u8>::empty() =~= without_layout(body));
}

/// Formats the document that `tree` holds: writes every token that is not layout as it
/// stands, and between the tokens what the options ask for. Layout apart, the text that
/// comes out is the source of the tree.
pub fn format_syntax(tree: &SyntaxTree, options: Options) -> (r: String)
    requires
        tree.well_formed(),
    ensures
        encode_utf8(r@) == formatted(*tree, options),
        without_layout(encode_utf8(r@)) == without_layout(tree.source_bytes()),
{
    proof {
        lemma_formatting_changes_layout_only(*tree, options);
    }
    let source = tree.source.as_str().as_bytes();
    let mut out: Vec<u8> = Vec::new();
    let mut pending = Pending { prev: None, breaks: 0, blank: false };
    proof {
        encode_utf8_valid_utf8(tree.source@);
    }
    format_node(&tree.root, 0, source, &options, &mut pending, &mut out);
    assert(out@ =~= rendered(
        element_leaves(Element::Node(tree.root), 0, SyntaxKind::ROOT),
        nothing_pending(),
        source@,
        options,
    ));
    if options.trailing_newline && pending.prev.is_some() {
        push_line_breaks(&mut out, 1, options.crlf);
        assert(line_breaks(1, options.crlf) =~= line_break(options.crlf)) by {
            assert(line_breaks(0, options.crlf) =~= Seq::<u8>::empty());
        }
    } else {
        assert(out@ + Seq::<u8>::empty() =~= out@);
    }
    string_from_utf8(out).unwrap()
}

/// Formats the document `source`: parses it, and writes the tree out again with the
/// layout that `options` ask for. The text that comes out is the formatted text of a tree
/// that the parser gives for `source`; layout apart, it is `source`.
pub fn format(source: &str, options: Options) -> (r: String)
    ensures
        exists|tree: SyntaxTree|
            is_parse_tree(tree, source@) && encode_utf8(r@) == formatted(tree, options),
        without_layout(encode_utf8(r@)) == without_layout(source.spec_bytes()),
{
    let parsed = parse(source);
    format_syntax(&parsed.tree, options)
}

} // verus!
