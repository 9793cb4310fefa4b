//! The layout that the formatter writes is a fixed point of the formatter.
//!
//! The formatted text is made of the tokens that were kept and of the blanks and line
//! breaks that were written between them. Read as these tokens, with these blanks and
//! line breaks as its layout, the formatted text formats to itself.

use crate::formatter::{
    advance, blanks, break_limit, count_line_feeds, formatted_leaves, gap, indent_depth, is_layout,
    leaves_hold_layout, leaves_text, lemma_leaves_text_concat, lemma_rendered_concat,
    lemma_rendered_one, line_break, line_breaks, mark_of, nothing_pending, pending_after, piece,
    rendered, separator, Leaf, Mark, Options, Pending,
};
use crate::scan::{CH_CR, CH_LF};
use crate::syntax::SyntaxKind;
use crate::tree::{layout_holds, span_text};
use vstd::prelude::*;

verus! {

/// The leaf of kind `kind` that spans `len` bytes from offset `at` on, at the place of
/// `like` in the tree.
pub open spec fn leaf_at(kind: SyntaxKind, at: int, len: int, like: Leaf) -> Leaf {
    Leaf {
        kind,
        span: (at as usize)..((at + len) as usize),
        depth: like.depth,
        parent: like.parent,
    }
}

/// The layout tokens that stand where the formatter has written, at offset `at`, what
/// separates the token before from `leaf`: a `NEWLINE` for the line breaks and a
/// `WHITESPACE` for the blanks, as far as there are any.
pub open spec fn layout_leaves(pending: Pending, leaf: Leaf, at: int, options: Options) -> Seq<
    Leaf,
> {
    let next = mark_of(leaf.kind, leaf.parent);
    match pending.prev {
        None => Seq::empty(),
        Some(prev) => if pending.breaks > 0 {
            let breaks = line_breaks(pending.breaks as int, options.crlf).len() as int;
            let indent = indent_depth(next, leaf.depth) * options.indent_width;
            if indent > 0 {
                seq![
                    leaf_at(SyntaxKind::NEWLINE, at, breaks, leaf),
                    leaf_at(SyntaxKind::WHITESPACE, at + breaks, indent, leaf),
                ]
            } else {
                seq![leaf_at(SyntaxKind::NEWLINE, at, breaks, leaf)]
            }
        } else if gap(prev, next, pending.blank, options) > 0 {
            seq![leaf_at(SyntaxKind::WHITESPACE, at, 1, leaf)]
        } else {
            Seq::empty()
        },
    }
}

/// The tokens that stand in the formatted text for `leaf`, where `pending` had gone by
/// before it and the formatted text was `at` bytes long: none for layout; for any other
/// token, the layout that was written before it, and the token itself where it now
/// stands.
pub open spec fn relaid_leaf(
    pending: Pending,
    leaf: Leaf,
    at: int,
    source: Seq<u8>,
    options: Options,
) -> Seq<Leaf> {
    if is_layout(leaf.kind) {
        Seq::empty()
    } else {
        let between = separator(
            pending,
            mark_of(leaf.kind, leaf.parent),
            leaf.depth,
            options,
        ).len() as int;
        layout_leaves(pending, leaf, at, options).push(
            leaf_at(leaf.kind, at + between, span_text(source, leaf.span).len() as int, leaf),
        )
    }
}

/// The tokens of the formatted text of `leaves`: those of `leaves` that are no layout,
/// each where it stands in the formatted text, with the layout that the formatter wrote
/// between them.
pub open spec fn relaid(leaves: Seq<Leaf>, source: Seq<u8>, options: Options) -> Seq<Leaf>
    decreases leaves.len(),
{
    if leaves.len() == 0 {
        Seq::empty()
    } else {
        relaid(leaves.drop_last(), source, options) + relaid_leaf(
            pending_after(leaves.drop_last(), nothing_pending(), source, options),
            leaves.last(),
            rendered(leaves.drop_last(), nothing_pending(), source, options).len() as int,
            source,
            options,
        )
    }
}

/// The tokens of the formatted document of `leaves`: the relaid tokens, and a `NEWLINE`
/// for the line break at the end where the formatter wrote one.
pub open spec fn relaid_document(leaves: Seq<Leaf>, source: Seq<u8>, options: Options) -> Seq<
    Leaf,
> {
    let body = rendered(leaves, nothing_pending(), source, options);
    let end = pending_after(leaves, nothing_pending(), source, options);
    if options.trailing_newline && end.prev is Some {
        relaid(leaves, source, options).push(
            Leaf {
                kind: SyntaxKind::NEWLINE,
                span: (body.len() as usize)..((body.len() + line_break(options.crlf).len())
                    as usize),
                depth: 0,
                parent: SyntaxKind::ROOT,
            },
        )
    } else {
        relaid(leaves, source, options)
    }
}

/// What has gone by right after a token: the token, and no layout yet.
pub open spec fn settled(pending: Pending) -> Pending {
    Pending { prev: pending.prev, breaks: 0, blank: false }
}

/// The gap between two tokens does not change when it is taken for the blank that stood
/// between them.
pub proof fn lemma_gap_is_stable(prev: Mark, next: Mark, blank: bool, options: Options)
    ensures
        gap(prev, next, gap(prev, next, blank, options) > 0, options) == gap(
            prev,
            next,
            blank,
            options,
        ),
        gap(prev, next, blank, options) <= 1,
{
}

/// `n` line breaks hold `n` line feeds.
pub proof fn lemma_line_breaks_count(n: int, crlf: bool)
    requires
        0 <= n,
    ensures
        count_line_feeds(line_breaks(n, crlf), line_breaks(n, crlf).len() as int) == n,
        line_breaks(n, crlf).len() == if crlf {
            2 * n
        } else {
            n
        },
    decreases n,
{
    if n > 0 {
        lemma_line_breaks_count(n - 1, crlf);
        let before = line_breaks(n - 1, crlf);
        let all = line_breaks(n, crlf);
        assert(all == before + line_break(crlf));
        lemma_count_prefix(all, before, before.len() as int);
        if crlf {
            assert(all[all.len() - 1] == CH_LF);
            assert(all[all.len() - 2] == CH_CR);
            assert(count_line_feeds(all, all.len() as int) == count_line_feeds(
                all,
                all.len() - 1,
            ) + 1);
            assert(count_line_feeds(all, all.len() - 1) == count_line_feeds(all, all.len() - 2));
        } else {
            assert(all[all.len() - 1] == CH_LF);
        }
    }
}

/// The line feeds of the start of a text are those of any text that starts alike.
pub proof fn lemma_count_prefix(a: Seq<u8>, b: Seq<u8>, n: int)
    requires
        0 <= n <= a.len(),
        n <= b.len(),
        forall|i: int| 0 <= i < n ==> a[i] == b[i],
    ensures
        count_line_feeds(a, n) == count_line_feeds(b, n),
    decreases n,
{
    if n > 0 {
        lemma_count_prefix(a, b, n - 1);
    }
}

/// Line breaks are counted up to the limit, from the start of a document on.
pub proof fn lemma_breaks_are_capped(leaves: Seq<Leaf>, source: Seq<u8>, options: Options)
    ensures
        pending_after(leaves, nothing_pending(), source, options).breaks <= break_limit(options),
    decreases leaves.len(),
{
    if leaves.len() > 0 {
        lemma_breaks_are_capped(leaves.drop_last(), source, options);
    }
}

/// Whether `text` holds `part` at offset `at`.
pub open spec fn holds_at(text: Seq<u8>, at: int, part: Seq<u8>) -> bool {
    0 <= at && at + part.len() <= text.len() && text.subrange(at, at + part.len()) == part
}

/// A text that holds two parts in a row at an offset holds each of them where it stands.
proof fn lemma_holds_at_parts(text: Seq<u8>, at: int, a: Seq<u8>, b: Seq<u8>)
    requires
        holds_at(text, at, a + b),
    ensures
        holds_at(text, at, a),
        holds_at(text, at + a.len(), b),
{
    let both = text.subrange(at, at + (a + b).len());
    assert(text.subrange(at, at + a.len()) =~= both.subrange(0, a.len() as int));
    assert(both.subrange(0, a.len() as int) =~= a);
    assert(text.subrange(at + a.len(), at + a.len() + b.len()) =~= both.subrange(
        a.len() as int,
        (a + b).len() as int,
    ));
    assert(both.subrange(a.len() as int, (a + b).len() as int) =~= b);
}

/// The layout tokens that stand for what the formatter wrote before a token lead the
/// formatter to write the same again.
proof fn lemma_layout_leaves(
    pending: Pending,
    leaf: Leaf,
    at: int,
    options: Options,
    text: Seq<u8>,
)
    requires
        !is_layout(leaf.kind),
        pending.breaks <= break_limit(options),
        holds_at(
            text,
            at,
            separator(pending, mark_of(leaf.kind, leaf.parent), leaf.depth, options),
        ),
        at + separator(
            pending,
            mark_of(leaf.kind, leaf.parent),
            leaf.depth,
            options,
        ).len() <= usize::MAX,
    ensures
        rendered(layout_leaves(pending, leaf, at, options), settled(pending), text, options)
            == Seq::<u8>::empty(),
        separator(
            pending_after(
                layout_leaves(pending, leaf, at, options),
                settled(pending),
                text,
                options,
            ),
            mark_of(leaf.kind, leaf.parent),
            leaf.depth,
            options,
        ) == separator(pending, mark_of(leaf.kind, leaf.parent), leaf.depth, options),
{
    let next = mark_of(leaf.kind, leaf.parent);
    let start = settled(pending);
    let layout = layout_leaves(pending, leaf, at, options);
    let none = Seq::<Leaf>::empty();
    assert(pending_after(none, start, text, options) == start);
    assert(rendered(none, start, text, options) == Seq::<u8>::empty());
    match pending.prev {
        None => {},
        Some(prev) => {
            if pending.breaks > 0 {
                let b = pending.breaks as int;
                let breaks = line_breaks(b, options.crlf);
                let indent = indent_depth(next, leaf.depth) * options.indent_width;
                lemma_line_breaks_count(b, options.crlf);
                let newline = leaf_at(SyntaxKind::NEWLINE, at, breaks.len() as int, leaf);
                lemma_holds_at_parts(text, at, breaks, blanks(indent));
                assert(span_text(text, newline.span) == breaks);
                lemma_rendered_one(newline, start, text, options);
                let after_newline = advance(start, newline, text, options);
                assert(after_newline == Pending {
                    prev: Some(prev),
                    breaks: b as usize,
                    blank: false,
                });
                if indent > 0 {
                    let blank = leaf_at(SyntaxKind::WHITESPACE, at + breaks.len(), indent, leaf);
                    lemma_rendered_one(blank, after_newline, text, options);
                    assert(layout =~= seq![newline] + seq![blank]);
                    lemma_rendered_concat(seq![newline], seq![blank], start, text, options);
                    assert(rendered(layout, start, text, options) =~= Seq::<u8>::empty());
                } else {
                    assert(layout =~= seq![newline]);
                }
            } else {
                lemma_gap_is_stable(prev, next, pending.blank, options);
                if gap(prev, next, pending.blank, options) > 0 {
                    let blank = leaf_at(SyntaxKind::WHITESPACE, at, 1, leaf);
                    lemma_rendered_one(blank, start, text, options);
                    assert(layout =~= seq![blank]);
                } else {
                    assert(layout =~= none);
                }
            }
        },
    }
}

/// A token of the formatted text, with the layout before it, leads the formatter to write
/// what it wrote.
proof fn lemma_relaid_leaf(
    pending: Pending,
    leaf: Leaf,
    at: int,
    source: Seq<u8>,
    options: Options,
    text: Seq<u8>,
)
    requires
        !is_layout(leaf.kind),
        pending.breaks <= break_limit(options),
        holds_at(text, at, piece(pending, leaf, source, options)),
        at + piece(pending, leaf, source, options).len() <= usize::MAX,
    ensures
        rendered(
            relaid_leaf(pending, leaf, at, source, options),
            settled(pending),
            text,
            options,
        ) == piece(pending, leaf, source, options),
        pending_after(
            relaid_leaf(pending, leaf, at, source, options),
            settled(pending),
            text,
            options,
        ) == advance(pending, leaf, source, options),
{
    let next = mark_of(leaf.kind, leaf.parent);
    let between = separator(pending, next, leaf.depth, options);
    let body = span_text(source, leaf.span);
    let layout = layout_leaves(pending, leaf, at, options);
    let moved = leaf_at(leaf.kind, at + between.len(), body.len() as int, leaf);
    lemma_holds_at_parts(text, at, between, body);
    lemma_layout_leaves(pending, leaf, at, options, text);
    let start = settled(pending);
    let before = pending_after(layout, start, text, options);
    lemma_rendered_one(moved, before, text, options);
    lemma_rendered_concat(layout, seq![moved], start, text, options);
    assert(relaid_leaf(pending, leaf, at, source, options) =~= layout + seq![moved]);
    assert(span_text(text, moved.span) == body);
    assert(piece(before, moved, text, options) == between + body);
    assert(Seq::<u8>::empty() + (between + body) =~= between + body);
}

/// The tokens of the formatted text lead the formatter to write the formatted text.
pub proof fn lemma_relaid(leaves: Seq<Leaf>, source: Seq<u8>, options: Options, text: Seq<u8>)
    requires
        holds_at(text, 0, rendered(leaves, nothing_pending(), source, options)),
        text.len() <= usize::MAX,
    ensures
        rendered(relaid(leaves, source, options), nothing_pending(), text, options) == rendered(
            leaves,
            nothing_pending(),
            source,
            options,
        ),
        pending_after(relaid(leaves, source, options), nothing_pending(), text, options)
            == settled(pending_after(leaves, nothing_pending(), source, options)),
    decreases leaves.len(),
{
    let start = nothing_pending();
    if leaves.len() > 0 {
        let init = leaves.drop_last();
        let last = leaves.last();
        let written = rendered(init, start, source, options);
        let pending = pending_after(init, start, source, options);
        let more = piece(pending, last, source, options);
        lemma_holds_at_parts(text, 0, written, more);
        lemma_relaid(init, source, options, text);
        lemma_breaks_are_capped(init, source, options);
        let relaid_init = relaid(init, source, options);
        let added = relaid_leaf(pending, last, written.len() as int, source, options);
        lemma_rendered_concat(relaid_init, added, start, text, options);
        if is_layout(last.kind) {
            assert(added =~= Seq::<Leaf>::empty());
            assert(rendered(added, settled(pending), text, options) == Seq::<u8>::empty());
            assert(written + Seq::<u8>::empty() =~= written);
        } else {
            lemma_relaid_leaf(pending, last, written.len() as int, source, options, text);
        }
    } else {
        assert(rendered(Seq::<Leaf>::empty(), start, text, options) == Seq::<u8>::empty());
    }
}

/// The text under a single leaf.
proof fn lemma_leaves_text_one(leaf: Leaf, text: Seq<u8>)
    ensures
        leaves_text(seq![leaf], text) == span_text(text, leaf.span),
{
    let one = seq![leaf];
    assert(one.drop_last() =~= Seq::<Leaf>::empty());
    assert(leaves_text(one.drop_last(), text) == Seq::<u8>::empty());
    assert(leaves_text(one, text) =~= span_text(text, leaf.span));
}

/// Line breaks hold line breaks only.
proof fn lemma_line_breaks_bytes(n: int, crlf: bool)
    ensures
        forall|i: int|
            0 <= i < line_breaks(n, crlf).len() ==> (#[trigger] line_breaks(n, crlf)[i]) == CH_LF
                || line_breaks(n, crlf)[i] == CH_CR,
    decreases n,
{
    if n > 0 {
        lemma_line_breaks_bytes(n - 1, crlf);
        let before = line_breaks(n - 1, crlf);
        let all = line_breaks(n, crlf);
        assert forall|i: int| 0 <= i < all.len() implies (#[trigger] all[i]) == CH_LF || all[i]
            == CH_CR by {
            if i < before.len() {
                assert(all[i] == before[i]);
            } else {
                assert(all[i] == line_break(crlf)[i - before.len()]);
            }
        }
    }
}

/// The tokens that stand for a token of the formatted text and the layout before it lie
/// one after another over what the formatter wrote, and the layout among them is layout.
proof fn lemma_relaid_leaf_tiles(
    pending: Pending,
    leaf: Leaf,
    at: int,
    source: Seq<u8>,
    options: Options,
    text: Seq<u8>,
)
    requires
        !is_layout(leaf.kind),
        holds_at(text, at, piece(pending, leaf, source, options)),
        at + piece(pending, leaf, source, options).len() <= usize::MAX,
    ensures
        leaves_text(relaid_leaf(pending, leaf, at, source, options), text) == piece(
            pending,
            leaf,
            source,
            options,
        ),
        leaves_hold_layout(relaid_leaf(pending, leaf, at, source, options), text),
{
    let next = mark_of(leaf.kind, leaf.parent);
    let between = separator(pending, next, leaf.depth, options);
    let body = span_text(source, leaf.span);
    let layout = layout_leaves(pending, leaf, at, options);
    let moved = leaf_at(leaf.kind, at + between.len(), body.len() as int, leaf);
    let all = relaid_leaf(pending, leaf, at, source, options);
    lemma_holds_at_parts(text, at, between, body);
    assert(all =~= layout + seq![moved]);
    assert(span_text(text, moved.span) == body);
    lemma_leaves_text_one(moved, text);
    lemma_leaves_text_concat(layout, seq![moved], text);
    assert(leaves_text(Seq::<Leaf>::empty(), text) == Seq::<u8>::empty());
    match pending.prev {
        None => {
            assert(layout =~= Seq::<Leaf>::empty());
            assert(Seq::<u8>::empty() + body =~= between + body);
        },
        Some(prev) => {
            if pending.breaks > 0 {
                let b = pending.breaks as int;
                let breaks = line_breaks(b, options.crlf);
                let indent = indent_depth(next, leaf.depth) * options.indent_width;
                let newline = leaf_at(SyntaxKind::NEWLINE, at, breaks.len() as int, leaf);
                lemma_holds_at_parts(text, at, breaks, blanks(indent));
                lemma_line_breaks_bytes(b, options.crlf);
                assert(span_text(text, newline.span) == breaks);
                lemma_leaves_text_one(newline, text);
                if indent > 0 {
                    let blank = leaf_at(SyntaxKind::WHITESPACE, at + breaks.len(), indent, leaf);
                    assert(span_text(text, blank.span) == blanks(indent));
                    lemma_leaves_text_one(blank, text);
                    assert(layout =~= seq![newline] + seq![blank]);
                    lemma_leaves_text_concat(seq![newline], seq![blank], text);
                    assert forall|i: int| 0 <= i < all.len() implies layout_holds(
                        (#[trigger] all[i]).kind,
                        span_text(text, all[i].span),
                    ) by {
                        if i == 0 {
                            assert(all[i] == newline);
                        } else if i == 1 {
                            assert(all[i] == blank);
                        } else {
                            assert(all[i] == moved);
                        }
                    }
                } else {
                    assert(layout =~= seq![newline]);
                    assert(blanks(indent) =~= Seq::<u8>::empty());
                    assert(breaks + Seq::<u8>::empty() =~= breaks);
                    assert forall|i: int| 0 <= i < all.len() implies layout_holds(
                        (#[trigger] all[i]).kind,
                        span_text(text, all[i].span),
                    ) by {
                        if i == 0 {
                            assert(all[i] == newline);
                        } else {
                            assert(all[i] == moved);
                        }
                    }
                }
            } else {
                lemma_gap_is_stable(prev, next, pending.blank, options);
                if gap(prev, next, pending.blank, options) > 0 {
                    let blank = leaf_at(SyntaxKind::WHITESPACE, at, 1, leaf);
                    assert(between =~= blanks(1));
                    assert(span_text(text, blank.span) == between);
                    lemma_leaves_text_one(blank, text);
                    assert(layout =~= seq![blank]);
                    assert forall|i: int| 0 <= i < all.len() implies layout_holds(
                        (#[trigger] all[i]).kind,
                        span_text(text, all[i].span),
                    ) by {
                        if i == 0 {
                            assert(all[i] == blank);
                        } else {
                            assert(all[i] == moved);
                        }
                    }
                } else {
                    assert(layout =~= Seq::<Leaf>::empty());
                    assert(between =~= Seq::<u8>::empty());
                    assert(Seq::<u8>::empty() + body =~= between + body);
                    assert(all[0] == moved);
                }
            }
        },
    }
}

/// The tokens of the formatted text lie one after another over it, and the layout among
/// them is layout.
pub proof fn lemma_relaid_tiles(
    leaves: Seq<Leaf>,
    source: Seq<u8>,
    options: Options,
    text: Seq<u8>,
)
    requires
        holds_at(text, 0, rendered(leaves, nothing_pending(), source, options)),
        text.len() <= usize::MAX,
    ensures
        leaves_text(relaid(leaves, source, options), text) == rendered(
            leaves,
            nothing_pending(),
            source,
            options,
        ),
        leaves_hold_layout(relaid(leaves, source, options), text),
    decreases leaves.len(),
{
    let start = nothing_pending();
    if leaves.len() > 0 {
        let init = leaves.drop_last();
        let last = leaves.last();
        let written = rendered(init, start, source, options);
        let pending = pending_after(init, start, source, options);
        let more = piece(pending, last, source, options);
        lemma_holds_at_parts(text, 0, written, more);
        lemma_relaid_tiles(init, source, options, text);
        let relaid_init = relaid(init, source, options);
        let added = relaid_leaf(pending, last, written.len() as int, source, options);
        lemma_leaves_text_concat(relaid_init, added, text);
        if is_layout(last.kind) {
            assert(added =~= Seq::<Leaf>::empty());
            assert(leaves_text(added, text) == Seq::<u8>::empty());
            assert(relaid_init + added =~= relaid_init);
            assert(written + Seq::<u8>::empty() =~= written);
        } else {
            lemma_relaid_leaf_tiles(pending, last, written.len() as int, source, options, text);
            let all = relaid_init + added;
            assert forall|i: int| 0 <= i < all.len() implies layout_holds(
                (#[trigger] all[i]).kind,
                span_text(text, all[i].span),
            ) by {
                if i < relaid_init.len() {
                    assert(all[i] == relaid_init[i]);
                } else {
                    assert(all[i] == added[i - relaid_init.len()]);
                }
            }
        }
    }
}

/// Formatting is stable under its own layout. The tokens that were kept, with the blanks
/// and line breaks that were written between them as layout tokens, lie one after another
/// over the formatted text; and the formatted text, read as these tokens, formats to
/// itself.
pub proof fn lemma_layout_is_stable(leaves: Seq<Leaf>, source: Seq<u8>, options: Options)
    requires
        formatted_leaves(leaves, source, options).len() <= usize::MAX,
    ensures
        leaves_text(
            relaid_document(leaves, source, options),
            formatted_leaves(leaves, source, options),
        ) == formatted_leaves(leaves, source, options),
        leaves_hold_layout(
            relaid_document(leaves, source, options),
            formatted_leaves(leaves, source, options),
        ),
        formatted_leaves(
            relaid_document(leaves, source, options),
            formatted_leaves(leaves, source, options),
            options,
        ) == formatted_leaves(leaves, source, options),
{
    let start = nothing_pending();
    let text = formatted_leaves(leaves, source, options);
    let body = rendered(leaves, start, source, options);
    let end = pending_after(leaves, start, source, options);
    assert(text.subrange(0, body.len() as int) =~= body);
    lemma_relaid(leaves, source, options, text);
    lemma_relaid_tiles(leaves, source, options, text);
    let tokens = relaid(leaves, source, options);
    if options.trailing_newline && end.prev is Some {
        let last = Leaf {
            kind: SyntaxKind::NEWLINE,
            span: (body.len() as usize)..((body.len() + line_break(options.crlf).len()) as usize),
            depth: 0,
            parent: SyntaxKind::ROOT,
        };
        let before = pending_after(tokens, start, text, options);
        lemma_rendered_one(last, before, text, options);
        lemma_rendered_concat(tokens, seq![last], start, text, options);
        let all = relaid_document(leaves, source, options);
        assert(all =~= tokens + seq![last]);
        assert(body + Seq::<u8>::empty() =~= body);
        assert(span_text(text, last.span) =~= line_break(options.crlf));
        lemma_leaves_text_one(last, text);
        lemma_leaves_text_concat(tokens, seq![last], text);
        assert forall|i: int| 0 <= i < all.len() implies layout_holds(
            (#[trigger] all[i]).kind,
            span_text(text, all[i].span),
        ) by {
            if i < tokens.len() {
                assert(all[i] == tokens[i]);
            } else {
                assert(all[i] == last);
            }
        }
    } else {
        assert(text =~= body);
    }
}

} // verus!
