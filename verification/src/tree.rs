//! Simple, lossless syntax tree for TOML formatting.
//!
//! Every byte of the source lies under exactly one leaf token, so the source can be put
//! together again from the leaves.

use crate::scan::{is_whitespace, spec_is_whitespace, CH_CR, CH_LF};
use crate::syntax::SyntaxKind;
use crate::text::{byte_len, on_boundary, str_slice};
use core::ops::Range;
use vstd::pervasive::unreached;
use vstd::prelude::*;
use vstd::string::{StringExecFns, StringSliceAdditionalSpecFns};
use vstd::utf8::{encode_utf8, encode_utf8_valid_utf8, valid_first_scalar};

verus! {

pub type TextRange = Range<usize>;

pub type TextSize = usize;

/// The span from `start` to `end`.
pub fn text_range(start: TextSize, end: TextSize) -> (r: TextRange)
    ensures
        r.start == start,
        r.end == end,
{
    start..end
}

/// A complete syntax tree with source text
#[derive(Debug)]
pub struct SyntaxTree {
    pub root: Node,
    pub source: String,
}

/// A syntax tree node (e.g., ENTRY, TABLE_HEADER, etc.)
#[derive(Debug)]
pub struct Node {
    pub kind: SyntaxKind,
    pub span: TextRange,
    pub children: Vec<Element>,
}

/// Either a node or a token
#[derive(Debug)]
pub enum Element {
    Node(Node),
    Token(Token),
}

/// A leaf token (e.g., IDENT, STRING, COMMA, etc.)
#[derive(Debug)]
pub struct Token {
    pub kind: SyntaxKind,
    pub span: TextRange,
}

impl Clone for Token {
    fn clone(&self) -> (r: Self)
        ensures
            r == *self,
    {
        Token { kind: self.kind, span: self.span.start..self.span.end }
    }
}

/// Copies a node with all that lies under it.
fn clone_node(node: &Node) -> (r: Node)
    ensures
        r.same_as(node),
    decreases node,
{
    let mut children: Vec<Element> = Vec::new();
    let mut i: usize = 0;
    while i < node.children.len()
        invariant
            i <= node.children@.len(),
            children@.len() == i,
            forall|j: int| 0 <= j < i ==> (#[trigger] children@[j]).same_as(&node.children@[j]),
        decreases node.children@.len() - i,
    {
        children.push(clone_element(&node.children[i]));
        i += 1;
    }
    Node { kind: node.kind, span: node.span.start..node.span.end, children }
}

/// Copies an element with all that lies under it.
fn clone_element(element: &Element) -> (r: Element)
    ensures
        r.same_as(element),
    decreases element,
{
    match element {
        Element::Node(n) => Element::Node(clone_node(n)),
        Element::Token(t) => Element::Token(t.clone()),
    }
}

impl Clone for Node {
    fn clone(&self) -> (r: Self)
        ensures
            r.same_as(self),
    {
        clone_node(self)
    }
}

impl Clone for Element {
    fn clone(&self) -> (r: Self)
        ensures
            r.same_as(self),
    {
        clone_element(self)
    }
}

impl Clone for SyntaxTree {
    fn clone(&self) -> (r: Self)
        ensures
            r.source@ == self.source@,
            r.root.same_as(&self.root),
    {
        SyntaxTree { root: self.root.clone(), source: self.source.clone() }
    }
}

/// The bytes of `source` that lie in `span`.
pub open spec fn span_text(source: Seq<u8>, span: TextRange) -> Seq<u8> {
    source.subrange(span.start as int, span.end as int)
}

/// The elements lie one after another, without a gap or an overlap, from offset `start`
/// to offset `end`, and each of them is well-formed.
pub open spec fn tiles(elements: Seq<Element>, start: int, end: int) -> bool
    decreases elements,
{
    if elements.len() == 0 {
        start == end
    } else {
        &&& elements.last().well_formed()
        &&& elements.last().spec_span().end == end
        &&& tiles(elements.drop_last(), start, elements.last().spec_span().start as int)
    }
}

/// The text under the leaf tokens of `elements`, in document order.
pub open spec fn elements_leaf_text(elements: Seq<Element>, source: Seq<u8>) -> Seq<u8>
    decreases elements,
{
    if elements.len() == 0 {
        Seq::empty()
    } else {
        elements_leaf_text(elements.drop_last(), source) + elements.last().leaf_text(source)
    }
}

/// The elements and all that lies under them, each node before its children and the
/// children in their order.
pub open spec fn elements_preorder(elements: Seq<Element>) -> Seq<Element>
    decreases elements,
{
    if elements.len() == 0 {
        Seq::empty()
    } else {
        elements.first().subtree() + elements_preorder(elements.skip(1))
    }
}

impl Token {
    /// The token's span is a span.
    pub open spec fn well_formed(&self) -> bool {
        self.span.start <= self.span.end
    }

    /// The token's span starts and ends at a character boundary of `source`, and a layout
    /// token spans layout only.
    pub open spec fn grounded(&self, source: Seq<u8>) -> bool {
        span_fits(source, self.span) && layout_holds(self.kind, span_text(source, self.span))
    }
}

impl Node {
    /// The node's children fill its span exactly, and so on down the tree.
    pub open spec fn well_formed(&self) -> bool
        decreases self,
    {
        self.span.start <= self.span.end && tiles(
            self.children@,
            self.span.start as int,
            self.span.end as int,
        )
    }

    /// The text under the node's leaf tokens, in document order.
    pub open spec fn leaf_text(&self, source: Seq<u8>) -> Seq<u8>
        decreases self,
    {
        elements_leaf_text(self.children@, source)
    }

    /// All that lies under the node, in depth-first pre-order.
    pub open spec fn spec_descendants(&self) -> Seq<Element> {
        elements_preorder(self.children@)
    }

    /// The two nodes are alike: of one kind and span, with children that are alike one by
    /// one.
    pub open spec fn same_as(&self, other: &Node) -> bool
        decreases self,
    {
        &&& self.kind == other.kind
        &&& self.span == other.span
        &&& self.children@.len() == other.children@.len()
        &&& forall|i: int|
            0 <= i < self.children@.len() ==> (#[trigger] self.children@[i]).same_as(
                &other.children@[i],
            )
    }

    /// `holds` is true of the kind and the span of the node and of every node under it.
    pub open spec fn all_nodes(&self, holds: spec_fn(SyntaxKind, TextRange) -> bool) -> bool
        decreases self,
    {
        &&& holds(self.kind, self.span)
        &&& forall|i: int|
            0 <= i < self.children@.len() ==> (#[trigger] self.children@[i]).all_nodes(holds)
    }

    /// `holds` is true of every token under the node, taken with the kind of the node
    /// whose child it is.
    pub open spec fn all_tokens(&self, holds: spec_fn(SyntaxKind, Token) -> bool) -> bool
        decreases self,
    {
        forall|i: int|
            0 <= i < self.children@.len() ==> (#[trigger] self.children@[i]).all_tokens(
                self.kind,
                holds,
            )
    }

    /// Every span in the node starts and ends at a character boundary of `source`, and
    /// every layout token in it spans layout only.
    pub open spec fn grounded(&self, source: Seq<u8>) -> bool
        decreases self,
    {
        &&& span_fits(source, self.span)
        &&& forall|i: int|
            0 <= i < self.children@.len() ==> (#[trigger] self.children@[i]).grounded(source)
    }
}

impl Element {
    pub open spec fn spec_span(&self) -> TextRange {
        match self {
            Element::Node(n) => n.span,
            Element::Token(t) => t.span,
        }
    }

    pub open spec fn spec_kind(&self) -> SyntaxKind {
        match self {
            Element::Node(n) => n.kind,
            Element::Token(t) => t.kind,
        }
    }

    /// The two elements are alike: two tokens of one kind and span, or two nodes that are
    /// alike.
    pub open spec fn same_as(&self, other: &Element) -> bool
        decreases self,
    {
        match (self, other) {
            (Element::Node(a), Element::Node(b)) => a.same_as(b),
            (Element::Token(a), Element::Token(b)) => a == b,
            _ => false,
        }
    }

    /// A token with a span, or a node whose children fill its span exactly.
    pub open spec fn well_formed(&self) -> bool
        decreases self,
    {
        match self {
            Element::Node(n) => n.well_formed(),
            Element::Token(t) => t.well_formed(),
        }
    }

    /// The text under the element's leaf tokens, in document order.
    pub open spec fn leaf_text(&self, source: Seq<u8>) -> Seq<u8>
        decreases self,
    {
        match self {
            Element::Node(n) => n.leaf_text(source),
            Element::Token(t) => span_text(source, t.span),
        }
    }

    /// Every span in the element starts and ends at a character boundary of `source`, and
    /// every layout token in it spans layout only.
    pub open spec fn grounded(&self, source: Seq<u8>) -> bool
        decreases self,
    {
        match self {
            Element::Node(n) => n.grounded(source),
            Element::Token(t) => t.grounded(source),
        }
    }

    /// `holds` is true of the kind and the span of the element, where it is a node, and of
    /// every node under it.
    pub open spec fn all_nodes(&self, holds: spec_fn(SyntaxKind, TextRange) -> bool) -> bool
        decreases self,
    {
        match self {
            Element::Node(n) => n.all_nodes(holds),
            Element::Token(_) => true,
        }
    }

    /// `holds` is true of the element, where it is a token, taken with `parent`, the kind
    /// of the node whose child it is; or of every token under it, taken likewise.
    pub open spec fn all_tokens(
        &self,
        parent: SyntaxKind,
        holds: spec_fn(SyntaxKind, Token) -> bool,
    ) -> bool
        decreases self,
    {
        match self {
            Element::Node(n) => n.all_tokens(holds),
            Element::Token(t) => holds(parent, *t),
        }
    }

    /// The element and all that lies under it, in depth-first pre-order.
    pub open spec fn subtree(&self) -> Seq<Element>
        decreases self,
    {
        match self {
            Element::Node(n) => seq![*self] + elements_preorder(n.children@),
            Element::Token(_) => seq![*self],
        }
    }
}

/// Each of the elements that lie one after another is well-formed.
pub proof fn lemma_tiles_each(elements: Seq<Element>, start: int, end: int, i: int)
    requires
        tiles(elements, start, end),
        0 <= i < elements.len(),
    ensures
        elements[i].well_formed(),
    decreases elements.len(),
{
    if i < elements.len() - 1 {
        let last = elements.last();
        lemma_tiles_each(elements.drop_last(), start, last.spec_span().start as int, i);
    }
}

/// Elements that lie one after another end no earlier than they start.
pub proof fn lemma_tiles_ordered(elements: Seq<Element>, start: int, end: int)
    requires
        tiles(elements, start, end),
    ensures
        start <= end,
    decreases elements.len(),
{
    if elements.len() > 0 {
        let last = elements.last();
        assert(last.well_formed());
        assert(last.spec_span().start <= last.spec_span().end) by {
            match last {
                Element::Node(n) => {
                    assert(n.well_formed());
                },
                Element::Token(t) => {
                    assert(t.well_formed());
                },
            }
        }
        lemma_tiles_ordered(elements.drop_last(), start, last.spec_span().start as int);
    }
}

/// Elements that lie one after another cover a span, and the text under their leaves is
/// the text of that span.
pub proof fn lemma_tiles_text(elements: Seq<Element>, start: int, end: int, source: Seq<u8>)
    requires
        tiles(elements, start, end),
        0 <= start,
        end <= source.len(),
    ensures
        start <= end,
        elements_leaf_text(elements, source) == source.subrange(start, end),
    decreases elements,
{
    if elements.len() == 0 {
        assert(source.subrange(start, end) =~= Seq::<u8>::empty());
    } else {
        let last = elements.last();
        let mid = last.spec_span().start as int;
        lemma_element_text(last, source);
        lemma_tiles_text(elements.drop_last(), start, mid, source);
        assert(source.subrange(start, end) =~= source.subrange(start, mid) + source.subrange(
            mid,
            end,
        ));
    }
}

/// The text under the leaves of a well-formed element is the text of its span.
pub proof fn lemma_element_text(element: Element, source: Seq<u8>)
    requires
        element.well_formed(),
        element.spec_span().end <= source.len(),
    ensures
        element.spec_span().start <= element.spec_span().end,
        element.leaf_text(source) == span_text(source, element.spec_span()),
    decreases element,
{
    match element {
        Element::Node(n) => {
            lemma_tiles_text(n.children@, n.span.start as int, n.span.end as int, source);
        },
        Element::Token(_) => {},
    }
}

impl SyntaxTree {
    /// The bytes of the source text.
    pub open spec fn source_bytes(&self) -> Seq<u8> {
        encode_utf8(self.source@)
    }

    /// The root is well-formed and spans the whole source, and every span in the tree
    /// starts and ends at a character boundary of the source.
    pub open spec fn well_formed(&self) -> bool {
        &&& self.root.well_formed()
        &&& self.root.grounded(self.source_bytes())
        &&& self.root.span.start == 0
        &&& self.root.span.end == self.source_bytes().len()
    }

    /// A well-formed tree is lossless: the text under its leaf tokens, in document order,
    /// is the source.
    pub proof fn lemma_lossless(&self)
        requires
            self.well_formed(),
        ensures
            self.root.leaf_text(self.source_bytes()) == self.source_bytes(),
    {
        lemma_element_text(Element::Node(self.root), self.source_bytes());
        assert(self.source_bytes().subrange(0, self.source_bytes().len() as int)
            =~= self.source_bytes());
    }

    /// Get the root node
    pub fn root(&self) -> (r: &Node)
        ensures
            *r == self.root,
    {
        &self.root
    }

    /// Get the source text
    pub fn source(&self) -> (r: &str)
        ensures
            r@ == self.source@,
    {
        self.source.as_str()
    }
}

/// Whether a token of kind `kind` whose text is `text` holds what its kind says, as far as
/// layout goes: a `WHITESPACE` holds blanks only, and a `NEWLINE` line breaks only.
pub open spec fn layout_holds(kind: SyntaxKind, text: Seq<u8>) -> bool {
    &&& kind == SyntaxKind::WHITESPACE ==> forall|i: int|
        0 <= i < text.len() ==> is_whitespace(#[trigger] text[i])
    &&& kind == SyntaxKind::NEWLINE ==> forall|i: int|
        0 <= i < text.len() ==> (#[trigger] text[i]) == CH_LF || text[i] == CH_CR
}

/// Whether a token of kind `kind` that spans `start..end` is grounded in `source`.
pub open spec fn token_grounded(
    source: Seq<u8>,
    kind: SyntaxKind,
    start: usize,
    end: usize,
) -> bool {
    (Token { kind, span: start..end }).grounded(source)
}

/// Whether `span` lies in `source` and starts and ends at character boundaries of it.
pub open spec fn span_fits(source: Seq<u8>, span: TextRange) -> bool {
    &&& span.start <= span.end
    &&& on_boundary(source, span.start as int)
    &&& on_boundary(source, span.end as int)
}

impl Node {
    pub fn kind(&self) -> (r: SyntaxKind)
        ensures
            r == self.kind,
    {
        self.kind
    }

    pub fn children(&self) -> (r: &[Element])
        ensures
            r@ == self.children@,
    {
        self.children.as_slice()
    }

    /// The children, nodes and tokens alike, in their order.
    pub fn children_with_tokens(&self) -> (r: &[Element])
        ensures
            r@ == self.children@,
    {
        self.children.as_slice()
    }

    /// The text of the node's span.
    pub fn text<'a>(&self, source: &'a str) -> (r: &'a str)
        requires
            span_fits(source.spec_bytes(), self.span),
        ensures
            r.spec_bytes() == span_text(source.spec_bytes(), self.span),
    {
        str_slice(source, self.span.start, self.span.end)
    }

    pub fn first_child(&self) -> (r: Option<&Element>)
        ensures
            self.children@.len() == 0 ==> r is None,
            self.children@.len() > 0 ==> r == Some(&self.children@[0]),
    {
        if self.children.len() == 0 {
            None
        } else {
            Some(&self.children[0])
        }
    }

    /// The text of the node's span, as a string of its own.
    pub fn to_string(&self, source: &str) -> (r: String)
        requires
            span_fits(source.spec_bytes(), self.span),
        ensures
            encode_utf8(r@) == span_text(source.spec_bytes(), self.span),
    {
        String::from_str(self.text(source))
    }
}

impl Token {
    pub fn kind(&self) -> (r: SyntaxKind)
        ensures
            r == self.kind,
    {
        self.kind
    }

    /// The text of the token's span.
    pub fn text<'a>(&self, source: &'a str) -> (r: &'a str)
        requires
            span_fits(source.spec_bytes(), self.span),
        ensures
            r.spec_bytes() == span_text(source.spec_bytes(), self.span),
    {
        str_slice(source, self.span.start, self.span.end)
    }

    /// The text of the token's span, as a string of its own.
    pub fn to_string(&self, source: &str) -> (r: String)
        requires
            span_fits(source.spec_bytes(), self.span),
        ensures
            encode_utf8(r@) == span_text(source.spec_bytes(), self.span),
    {
        String::from_str(self.text(source))
    }
}

impl Element {
    pub fn kind(&self) -> (r: SyntaxKind)
        ensures
            r == self.spec_kind(),
    {
        match self {
            Element::Node(n) => n.kind(),
            Element::Token(t) => t.kind(),
        }
    }

    pub fn as_node(&self) -> (r: Option<&Node>)
        ensures
            r == (match self {
                Element::Node(n) => Some(n),
                Element::Token(_) => None,
            }),
    {
        match self {
            Element::Node(n) => Some(n),
            Element::Token(_) => None,
        }
    }

    pub fn as_token(&self) -> (r: Option<&Token>)
        ensures
            r == (match self {
                Element::Node(_) => None,
                Element::Token(t) => Some(t),
            }),
    {
        match self {
            Element::Node(_) => None,
            Element::Token(t) => Some(t),
        }
    }

    /// The text of the element's span.
    pub fn text<'a>(&self, source: &'a str) -> (r: &'a str)
        requires
            span_fits(source.spec_bytes(), self.spec_span()),
        ensures
            r.spec_bytes() == span_text(source.spec_bytes(), self.spec_span()),
    {
        match self {
            Element::Node(n) => n.text(source),
            Element::Token(t) => t.text(source),
        }
    }

    /// The text of the element's span, as a string of its own.
    pub fn to_string(&self, source: &str) -> (r: String)
        requires
            span_fits(source.spec_bytes(), self.spec_span()),
        ensures
            encode_utf8(r@) == span_text(source.spec_bytes(), self.spec_span()),
    {
        String::from_str(self.text(source))
    }

    pub fn text_range(&self) -> (r: TextRange)
        ensures
            r == self.spec_span(),
    {
        match self {
            Element::Node(n) => n.span.start..n.span.end,
            Element::Token(t) => t.span.start..t.span.end,
        }
    }

    pub fn span(&self) -> (r: &TextRange)
        ensures
            *r == self.spec_span(),
    {
        match self {
            Element::Node(n) => &n.span,
            Element::Token(t) => &t.span,
        }
    }
}

impl From<Node> for Element {
    fn from(node: Node) -> (r: Self) {
        Element::Node(node)
    }
}

impl vstd::std_specs::convert::FromSpecImpl<Node> for Element {
    open spec fn obeys_from_spec() -> bool {
        true
    }

    open spec fn from_spec(node: Node) -> Element {
        Element::Node(node)
    }
}

impl From<Token> for Element {
    fn from(token: Token) -> (r: Self) {
        Element::Token(token)
    }
}

impl vstd::std_specs::convert::FromSpecImpl<Token> for Element {
    open spec fn obeys_from_spec() -> bool {
        true
    }

    open spec fn from_spec(token: Token) -> Element {
        Element::Token(token)
    }
}

/// What a stack of elements still has to hand out: the element on top with all that lies
/// under it, then the same for the one below, and so on.
pub open spec fn stack_order(stack: Seq<&Element>) -> Seq<Element>
    decreases stack.len(),
{
    if stack.len() == 0 {
        Seq::empty()
    } else {
        stack.last().subtree() + stack_order(stack.drop_last())
    }
}

/// A depth-first traversal that has handed out a part of what lies under a node.
pub struct DescendantsIter<'a> {
    stack: Vec<&'a Element>,
}

/// Puts `children` on `stack`, the first child on top.
fn push_reversed<'a>(stack: &mut Vec<&'a Element>, children: &'a Vec<Element>)
    ensures
        stack_order(final(stack)@) == elements_preorder(children@) + stack_order(old(stack)@),
{
    let mut i: usize = children.len();
    assert(children@.skip(i as int) =~= Seq::<Element>::empty());
    while i > 0
        invariant
            i <= children@.len(),
            stack_order(stack@) == elements_preorder(children@.skip(i as int)) + stack_order(
                old(stack)@,
            ),
        decreases i,
    {
        let ghost below = stack@;
        i -= 1;
        stack.push(&children[i]);
        proof {
            let rest = children@.skip(i as int);
            assert(stack@.drop_last() =~= below);
            assert(rest.skip(1) =~= children@.skip(i + 1));
            assert(rest.first() == children@[i as int]);
            assert(stack_order(stack@) =~= elements_preorder(rest) + stack_order(old(stack)@));
        }
    }
    assert(children@.skip(0) =~= children@);
}

impl<'a> DescendantsIter<'a> {
    /// What the traversal has not handed out yet, in the order in which it will.
    pub closed spec fn remaining(&self) -> Seq<Element> {
        stack_order(self.stack@)
    }

    /// A traversal of all that lies under `node`.
    pub fn new(node: &'a Node) -> (r: Self)
        ensures
            r.remaining() == node.spec_descendants(),
    {
        let mut stack: Vec<&'a Element> = Vec::new();
        push_reversed(&mut stack, &node.children);
        Self { stack }
    }

    /// Hands out the next element: a node before its children, the children in their
    /// order. `None` when nothing is left.
    pub fn next(&mut self) -> (r: Option<&'a Element>)
        ensures
            old(self).remaining().len() == 0 ==> r is None && final(self).remaining().len() == 0,
            old(self).remaining().len() > 0 ==> r is Some && *r->0 == old(self).remaining()[0]
                && final(self).remaining() == old(self).remaining().skip(1),
    {
        let ghost before = self.stack@;
        let element = match self.stack.pop() {
            None => { return None; },
            Some(element) => element,
        };
        assert(self.stack@ =~= before.drop_last());
        if let Element::Node(node) = element {
            push_reversed(&mut self.stack, &node.children);
        }
        assert(self.remaining() =~= old(self).remaining().skip(1));
        Some(element)
    }
}

impl Node {
    /// All that lies under the node, in depth-first pre-order.
    pub fn descendants(&self) -> (r: Vec<&Element>)
        ensures
            r@.len() == self.spec_descendants().len(),
            forall|i: int| 0 <= i < r@.len() ==> *r@[i] == self.spec_descendants()[i],
    {
        let mut iter = DescendantsIter::new(self);
        let mut found: Vec<&Element> = Vec::new();
        loop
            invariant
                found@.len() + iter.remaining().len() == self.spec_descendants().len(),
                forall|i: int| 0 <= i < found@.len() ==> *found@[i] == self.spec_descendants()[i],
                forall|i: int|
                    0 <= i < iter.remaining().len() ==> iter.remaining()[i]
                        == self.spec_descendants()[found@.len() + i],
            ensures
                iter.remaining().len() == 0,
            decreases iter.remaining().len(),
        {
            let ghost left = iter.remaining();
            match iter.next() {
                None => { break ; },
                Some(element) => {
                    found.push(element);
                    assert forall|i: int|
                        0 <= i < iter.remaining().len() implies iter.remaining()[i]
                        == self.spec_descendants()[found@.len() + i] by {
                        assert(iter.remaining()[i] == left[i + 1]);
                    }
                },
            }
        }
        found
    }

    /// All that lies under the node, nodes and tokens alike, in depth-first pre-order.
    pub fn descendants_with_tokens(&self) -> (r: Vec<&Element>)
        ensures
            r@.len() == self.spec_descendants().len(),
            forall|i: int| 0 <= i < r@.len() ==> *r@[i] == self.spec_descendants()[i],
    {
        self.descendants()
    }
}

/// A node that is being built: its kind, where it starts, and what lies under it so far.
pub struct Frame {
    pub kind: SyntaxKind,
    pub start: usize,
    pub children: Seq<Element>,
}

/// The children of every open node lie one after another, from where the node starts up
/// to where the next open node starts, or up to `cursor` for the innermost.
pub open spec fn frames_tiled(frames: Seq<Frame>, cursor: int) -> bool
    decreases frames.len(),
{
    if frames.len() == 0 {
        true
    } else {
        &&& tiles(frames.last().children, frames.last().start as int, cursor)
        &&& frames_tiled(frames.drop_last(), frames.last().start as int)
    }
}

/// The cursor and the start of every open node are character boundaries of `source`, and
/// all that lies under the open nodes is grounded in `source`.
pub open spec fn frames_grounded(frames: Seq<Frame>, source: Seq<u8>, cursor: int) -> bool {
    &&& on_boundary(source, cursor)
    &&& forall|i: int|
        0 <= i < frames.len() ==> on_boundary(source, (#[trigger] frames[i]).start as int)
    &&& forall|i: int, j: int|
        0 <= i < frames.len() && 0 <= j < frames[i].children.len() ==> (
        #[trigger] frames[i].children[j]).grounded(source)
}

/// `holds` is true of every token under the open nodes, taken with the kind of the node
/// whose child it is.
pub open spec fn frames_all_tokens(
    frames: Seq<Frame>,
    holds: spec_fn(SyntaxKind, Token) -> bool,
) -> bool {
    forall|i: int, j: int|
        0 <= i < frames.len() && 0 <= j < frames[i].children.len() ==> (
        #[trigger] frames[i].children[j]).all_tokens(frames[i].kind, holds)
}

/// `holds` is true of the kind and the span of every node under the open nodes.
pub open spec fn frames_all_nodes(
    frames: Seq<Frame>,
    holds: spec_fn(SyntaxKind, TextRange) -> bool,
) -> bool {
    forall|i: int, j: int|
        0 <= i < frames.len() && 0 <= j < frames[i].children.len() ==> (
        #[trigger] frames[i].children[j]).all_nodes(holds)
}

/// What is true of every token under an element is also true of what follows from it.
pub proof fn lemma_all_tokens_follow(
    element: Element,
    parent: SyntaxKind,
    holds: spec_fn(SyntaxKind, Token) -> bool,
    follows: spec_fn(SyntaxKind, Token) -> bool,
)
    requires
        element.all_tokens(parent, holds),
        forall|kind: SyntaxKind, token: Token|
            #[trigger] holds(kind, token) ==> follows(kind, token),
    ensures
        element.all_tokens(parent, follows),
    decreases element,
{
    match element {
        Element::Token(_) => {},
        Element::Node(n) => {
            assert forall|i: int| 0 <= i < n.children@.len() implies (
            #[trigger] n.children@[i]).all_tokens(n.kind, follows) by {
                lemma_all_tokens_follow(n.children@[i], n.kind, holds, follows);
            }
        },
    }
}

/// What is true of every token under the open nodes is also true of what follows from it.
pub proof fn lemma_frames_all_tokens_follow(
    frames: Seq<Frame>,
    holds: spec_fn(SyntaxKind, Token) -> bool,
    follows: spec_fn(SyntaxKind, Token) -> bool,
)
    requires
        frames_all_tokens(frames, holds),
        forall|kind: SyntaxKind, token: Token|
            #[trigger] holds(kind, token) ==> follows(kind, token),
    ensures
        frames_all_tokens(frames, follows),
{
    assert forall|i: int, j: int|
        0 <= i < frames.len() && 0 <= j < frames[i].children.len() implies (
    #[trigger] frames[i].children[j]).all_tokens(frames[i].kind, follows) by {
        lemma_all_tokens_follow(frames[i].children[j], frames[i].kind, holds, follows);
    }
}

/// The token of kind `kind` that spans `start..end`.
pub open spec fn token_of(kind: SyntaxKind, start: usize, end: usize) -> Token {
    Token { kind, span: start..end }
}

/// Whether `element` is a node of kind `kind` that spans `start..end` and has the
/// children `children`.
pub open spec fn is_node_of(
    element: Element,
    kind: SyntaxKind,
    start: usize,
    end: usize,
    children: Seq<Element>,
) -> bool {
    element matches Element::Node(n) && n.kind == kind && n.span.start == start && n.span.end
        == end && n.children@ == children
}

struct NodeBuilder {
    kind: SyntaxKind,
    start: usize,
    children: Vec<Element>,
}

/// Builder for constructing a syntax tree during parsing
pub struct TreeBuilder {
    source: String,
    stack: Vec<NodeBuilder>,
    current_pos: usize,
    /// Whether the outermost node has been closed.
    root_closed: bool,
}

impl TreeBuilder {
    /// The source text that the tree is built for.
    pub closed spec fn source_text(&self) -> Seq<char> {
        self.source@
    }

    /// The nodes that are open, the outermost first.
    pub closed spec fn frames(&self) -> Seq<Frame> {
        self.stack@.map_values(
            |b: NodeBuilder| Frame { kind: b.kind, start: b.start, children: b.children@ },
        )
    }

    /// The offset at which the next token will start.
    pub closed spec fn cursor(&self) -> usize {
        self.current_pos
    }

    /// Whether the outermost node has been closed, so that the tree has its root.
    pub closed spec fn is_closed(&self) -> bool {
        self.root_closed
    }

    /// What has been built so far has neither gap nor overlap.
    pub open spec fn tiled(&self) -> bool {
        frames_tiled(self.frames(), self.cursor() as int)
    }

    /// `holds` is true of every token that has been built, taken with the kind of the
    /// node whose child it is.
    pub open spec fn all_tokens(&self, holds: spec_fn(SyntaxKind, Token) -> bool) -> bool {
        frames_all_tokens(self.frames(), holds)
    }

    /// `holds` is true of the kind and the span of every node that has been closed.
    pub open spec fn all_nodes(&self, holds: spec_fn(SyntaxKind, TextRange) -> bool) -> bool {
        frames_all_nodes(self.frames(), holds)
    }

    /// The builder holds one node and nothing else, and that node holds the whole source
    /// text: what has been built is tiled and grounded, from the start of the source to its
    /// end.
    pub open spec fn holds_whole_source(&self) -> bool {
        &&& self.tiled()
        &&& self.grounded()
        &&& self.frames().len() == 1
        &&& self.frames()[0].start == 0
        &&& self.frames()[0].children.len() == 1
        &&& self.cursor() == encode_utf8(self.source_text()).len()
    }

    /// Every span that has been built, and the cursor, lie on character boundaries of the
    /// source text, and every layout token that has been built spans layout only.
    pub open spec fn grounded(&self) -> bool {
        frames_grounded(self.frames(), encode_utf8(self.source_text()), self.cursor() as int)
    }

    pub fn new(source: &str) -> (r: Self)
        ensures
            r.source_text() == source@,
            r.frames() == Seq::<Frame>::empty(),
            r.cursor() == 0,
            !r.is_closed(),
            r.tiled(),
            r.grounded(),
            forall|holds: spec_fn(SyntaxKind, Token) -> bool| #[trigger] r.all_tokens(holds),
            forall|holds: spec_fn(SyntaxKind, TextRange) -> bool| #[trigger] r.all_nodes(holds),
    {
        let r = Self {
            source: String::from_str(source),
            stack: Vec::new(),
            current_pos: 0,
            root_closed: false,
        };
        assert(r.frames() =~= Seq::<Frame>::empty());
        proof {
            encode_utf8_valid_utf8(source@);
            if encode_utf8(source@).len() > 0 {
                assert(valid_first_scalar(encode_utf8(source@)));
            }
        }
        r
    }

    /// Opens a node of kind `kind` at the cursor.
    pub fn start_node(&mut self, kind: SyntaxKind)
        ensures
            final(self).source_text() == old(self).source_text(),
            final(self).cursor() == old(self).cursor(),
            final(self).frames() == old(self).frames().push(
                Frame { kind, start: old(self).cursor(), children: Seq::empty() },
            ),
            final(self).is_closed() == old(self).is_closed(),
            old(self).tiled() ==> final(self).tiled(),
            old(self).grounded() ==> final(self).grounded(),
            forall|holds: spec_fn(SyntaxKind, Token) -> bool|
                old(self).all_tokens(holds) ==> #[trigger] final(self).all_tokens(holds),
            forall|holds: spec_fn(SyntaxKind, TextRange) -> bool|
                old(self).all_nodes(holds) ==> #[trigger] final(self).all_nodes(holds),
    {
        self.stack.push(NodeBuilder { kind, start: self.current_pos, children: Vec::new() });
        proof {
            let frame = Frame { kind, start: old(self).cursor(), children: Seq::empty() };
            assert(self.frames() =~= old(self).frames().push(frame));
            assert(self.frames().drop_last() =~= old(self).frames());
        }
    }

    /// Adds a token of kind `kind` whose text is `text` to the innermost open node, and
    /// moves the cursor past it. With no node open the token is left out, and the cursor
    /// still moves.
    pub fn token(&mut self, kind: SyntaxKind, text: &str)
        requires
            old(self).cursor() + text.spec_bytes().len() <= usize::MAX,
        ensures
            final(self).source_text() == old(self).source_text(),
            final(self).cursor() == old(self).cursor() + text.spec_bytes().len(),
            final(self).is_closed() == old(self).is_closed(),
            old(self).frames().len() == 0 ==> final(self).frames() == old(self).frames(),
            old(self).frames().len() > 0 ==> final(self).frames() == old(self).frames().update(
                old(self).frames().len() - 1,
                Frame {
                    kind: old(self).frames().last().kind,
                    start: old(self).frames().last().start,
                    children: old(self).frames().last().children.push(
                        Element::Token(
                            Token {
                                kind,
                                span: old(self).cursor()..final(self).cursor(),
                            },
                        ),
                    ),
                },
            ),
            old(self).tiled() ==> final(self).tiled(),
            old(self).grounded() && token_grounded(
                encode_utf8(old(self).source_text()),
                kind,
                old(self).cursor(),
                final(self).cursor(),
            ) ==> final(self).grounded(),
            forall|holds: spec_fn(SyntaxKind, Token) -> bool|
                old(self).all_tokens(holds) && (old(self).frames().len() > 0 ==> holds(
                    old(self).frames().last().kind,
                    token_of(kind, old(self).cursor(), final(self).cursor()),
                )) ==> #[trigger] final(self).all_tokens(holds),
            forall|holds: spec_fn(SyntaxKind, TextRange) -> bool|
                old(self).all_nodes(holds) ==> #[trigger] final(self).all_nodes(holds),
    {
        let end: usize = self.current_pos + byte_len(text);
        let token = Token { kind, span: self.current_pos..end };
        let popped = self.stack.pop();
        if let Some(parent) = popped {
            let mut parent = parent;
            parent.children.push(Element::Token(token));
            self.stack.push(parent);
            proof {
                let frames = old(self).frames();
                let frame = Frame {
                    kind: frames.last().kind,
                    start: frames.last().start,
                    children: frames.last().children.push(Element::Token(token)),
                };
                assert(self.frames() =~= frames.update(frames.len() - 1, frame));
                assert(self.frames().drop_last() =~= frames.drop_last());
                assert(frame.children.drop_last() =~= frames.last().children);
            }
        } else {
            assert(self.frames() =~= old(self).frames());
        }
        self.current_pos = end;
        proof {
            if old(self).tiled() && old(self).frames().len() > 0 {
                let frames = old(self).frames();
                let grown = self.frames().last().children;
                assert(self.frames().drop_last() =~= frames.drop_last());
                assert(grown.drop_last() =~= frames.last().children);
                assert(grown.last() == Element::Token(token));
                assert(token.well_formed());
                assert(grown.last().well_formed());
                assert(tiles(
                    frames.last().children,
                    frames.last().start as int,
                    old(self).cursor() as int,
                ));
                assert(tiles(
                    grown.drop_last(),
                    frames.last().start as int,
                    token.span.start as int,
                ));
                assert(grown.len() > 0);
                assert(grown.last().spec_span().end == end);
                assert(tiles(grown, frames.last().start as int, end as int));
            }
        }
    }

    /// Closes the innermost open node: its span ends at the cursor. The node goes under
    /// the node that was open around it, as its last child; where none was, the outermost
    /// node has been closed, and it is kept as the only child of a frame of its own kind
    /// and start, from which `finish` takes it.
    pub fn finish_node(&mut self)
        requires
            old(self).frames().len() > 0,
        ensures
            final(self).source_text() == old(self).source_text(),
            final(self).cursor() == old(self).cursor(),
            final(self).is_closed() == (old(self).is_closed() || old(self).frames().len() == 1),
            old(self).frames().len() >= 2 ==> {
                let n = old(self).frames().len() as int;
                let top = old(self).frames()[n - 1];
                let parent = old(self).frames()[n - 2];
                &&& final(self).frames().len() == n - 1
                &&& final(self).frames().drop_last() == old(self).frames().subrange(0, n - 2)
                &&& final(self).frames().last().kind == parent.kind
                &&& final(self).frames().last().start == parent.start
                &&& final(self).frames().last().children.len() == parent.children.len() + 1
                &&& final(self).frames().last().children.drop_last() == parent.children
                &&& is_node_of(
                    final(self).frames().last().children.last(),
                    top.kind,
                    top.start,
                    old(self).cursor(),
                    top.children,
                )
            },
            old(self).frames().len() == 1 ==> {
                let top = old(self).frames()[0];
                &&& final(self).frames().len() == 1
                &&& final(self).frames()[0].kind == top.kind
                &&& final(self).frames()[0].start == top.start
                &&& final(self).frames()[0].children.len() == 1
                &&& is_node_of(
                    final(self).frames()[0].children[0],
                    top.kind,
                    top.start,
                    old(self).cursor(),
                    top.children,
                )
            },
            old(self).tiled() ==> final(self).tiled(),
            old(self).tiled() && old(self).grounded() ==> final(self).grounded(),
            forall|holds: spec_fn(SyntaxKind, Token) -> bool|
                old(self).all_tokens(holds) ==> #[trigger] final(self).all_tokens(holds),
            forall|holds: spec_fn(SyntaxKind, TextRange) -> bool|
                old(self).all_nodes(holds) && holds(
                    old(self).frames().last().kind,
                    old(self).frames().last().start..old(self).cursor(),
                ) ==> #[trigger] final(self).all_nodes(holds),
    {
        let ghost frames = self.frames();
        let builder = self.stack.pop().unwrap();
        let kind = builder.kind;
        let start: usize = builder.start;
        let node = Node { kind, span: start..self.current_pos, children: builder.children };
        let popped_parent = self.stack.pop();
        if let Some(parent) = popped_parent {
            let mut parent = parent;
            parent.children.push(Element::Node(node));
            self.stack.push(parent);
            proof {
                let n = frames.len() as int;
                let grown = self.frames().last().children;
                assert(self.frames().drop_last() =~= frames.subrange(0, n - 2));
                assert(grown.drop_last() =~= frames[n - 2].children);
                assert(frames.drop_last().last() == frames[n - 2]);
                assert(frames.drop_last().drop_last() =~= frames.subrange(0, n - 2));
                assert(grown.last() == Element::Node(node));
                assert forall|holds: spec_fn(SyntaxKind, Token) -> bool|
                    old(self).all_tokens(holds) implies #[trigger] self.all_tokens(holds) by {
                    assert forall|j: int| 0 <= j < node.children@.len() implies (
                    #[trigger] node.children@[j]).all_tokens(node.kind, holds) by {
                        assert(frames[n - 1].children[j].all_tokens(frames[n - 1].kind, holds));
                    }
                    assert(node.all_tokens(holds));
                    assert forall|i: int, j: int|
                        0 <= i < self.frames().len() && 0 <= j
                            < self.frames()[i].children.len() implies (
                    #[trigger] self.frames()[i].children[j]).all_tokens(
                        self.frames()[i].kind,
                        holds,
                    ) by {
                        if i < n - 2 {
                            assert(self.frames()[i] == self.frames().drop_last()[i]);
                            assert(frames[i].children[j].all_tokens(frames[i].kind, holds));
                        } else if j < grown.len() - 1 {
                            assert(grown[j] == grown.drop_last()[j]);
                            assert(frames[n - 2].children[j].all_tokens(frames[n - 2].kind, holds));
                        } else {
                            assert(grown[j] == Element::Node(node));
                        }
                    }
                }
                assert forall|holds: spec_fn(SyntaxKind, TextRange) -> bool|
                    old(self).all_nodes(holds) && holds(
                        frames.last().kind,
                        frames.last().start..old(self).cursor(),
                    ) implies #[trigger] self.all_nodes(holds) by {
                    assert forall|j: int| 0 <= j < node.children@.len() implies (
                    #[trigger] node.children@[j]).all_nodes(holds) by {
                        assert(frames[n - 1].children[j].all_nodes(holds));
                    }
                    assert(node.all_nodes(holds));
                    assert forall|i: int, j: int|
                        0 <= i < self.frames().len() && 0 <= j
                            < self.frames()[i].children.len() implies (
                    #[trigger] self.frames()[i].children[j]).all_nodes(holds) by {
                        if i < n - 2 {
                            assert(self.frames()[i] == self.frames().drop_last()[i]);
                            assert(frames[i].children[j].all_nodes(holds));
                        } else if j < grown.len() - 1 {
                            assert(grown[j] == grown.drop_last()[j]);
                            assert(frames[n - 2].children[j].all_nodes(holds));
                        } else {
                            assert(grown[j] == Element::Node(node));
                        }
                    }
                }
                if old(self).tiled() {
                    assert(tiles(frames.last().children, start as int, self.current_pos as int));
                    lemma_tiles_ordered(node.children@, start as int, self.current_pos as int);
                    assert(node.well_formed());
                    assert(grown.last() == Element::Node(node));
                    assert(grown.last().well_formed());
                    assert(grown.last().spec_span().end == self.current_pos);
                    assert(frames_tiled(frames.drop_last(), start as int));
                    assert(tiles(grown.drop_last(), frames[n - 2].start as int, start as int));
                    assert(tiles(grown, frames[n - 2].start as int, self.current_pos as int));
                    assert(frames_tiled(
                        frames.drop_last().drop_last(),
                        frames[n - 2].start as int,
                    ));
                    assert(self.frames().drop_last() == frames.drop_last().drop_last());
                    assert(frames_tiled(self.frames(), self.current_pos as int));
                    if old(self).grounded() {
                        let source = encode_utf8(self.source_text());
                        assert(node.children@ == frames[n - 1].children);
                        assert(on_boundary(source, frames[n - 1].start as int));
                        assert forall|j: int| 0 <= j < node.children@.len() implies (
                        #[trigger] node.children@[j]).grounded(source) by {
                            assert(frames[n - 1].children[j].grounded(source));
                        }
                        assert(node.grounded(source));
                        assert forall|i: int, j: int|
                            0 <= i < self.frames().len() && 0 <= j
                                < self.frames()[i].children.len() implies (
                        #[trigger] self.frames()[i].children[j]).grounded(source) by {
                            if i < n - 2 {
                                assert(self.frames()[i] == self.frames().drop_last()[i]);
                                assert(frames[i].children[j].grounded(source));
                            } else if j < grown.len() - 1 {
                                assert(grown[j] == grown.drop_last()[j]);
                                assert(frames[n - 2].children[j].grounded(source));
                            } else {
                                assert(grown[j] == Element::Node(node));
                            }
                        }
                        assert forall|i: int| 0 <= i < self.frames().len() implies on_boundary(
                            source,
                            (#[trigger] self.frames()[i]).start as int,
                        ) by {
                            if i < n - 2 {
                                assert(self.frames()[i] == self.frames().drop_last()[i]);
                                assert(on_boundary(source, frames[i].start as int));
                            } else {
                                assert(on_boundary(source, frames[n - 2].start as int));
                            }
                        }
                    }
                }
            }
        } else {
            let mut children: Vec<Element> = Vec::new();
            children.push(Element::Node(node));
            self.stack.push(NodeBuilder { kind, start, children });
            self.root_closed = true;
            proof {
                let held = self.frames()[0].children;
                assert(held.drop_last() =~= Seq::<Element>::empty());
                assert(self.frames().drop_last() =~= Seq::<Frame>::empty());
                assert(held[0] == Element::Node(node));
                assert forall|holds: spec_fn(SyntaxKind, Token) -> bool|
                    old(self).all_tokens(holds) implies #[trigger] self.all_tokens(holds) by {
                    assert forall|j: int| 0 <= j < node.children@.len() implies (
                    #[trigger] node.children@[j]).all_tokens(node.kind, holds) by {
                        assert(frames[0].children[j].all_tokens(frames[0].kind, holds));
                    }
                    assert(node.all_tokens(holds));
                }
                assert forall|holds: spec_fn(SyntaxKind, TextRange) -> bool|
                    old(self).all_nodes(holds) && holds(
                        frames.last().kind,
                        frames.last().start..old(self).cursor(),
                    ) implies #[trigger] self.all_nodes(holds) by {
                    assert forall|j: int| 0 <= j < node.children@.len() implies (
                    #[trigger] node.children@[j]).all_nodes(holds) by {
                        assert(frames[0].children[j].all_nodes(holds));
                    }
                    assert(node.all_nodes(holds));
                }
                if old(self).tiled() {
                    assert(tiles(frames.last().children, start as int, self.current_pos as int));
                    lemma_tiles_ordered(node.children@, start as int, self.current_pos as int);
                    assert(node.well_formed());
                    assert(held.last() == Element::Node(node));
                    assert(held.last().well_formed());
                    assert(tiles(held.drop_last(), start as int, start as int));
                    assert(tiles(held, start as int, self.current_pos as int));
                    assert(self.frames().last().children == held);
                    assert(frames_tiled(self.frames().drop_last(), start as int));
                    assert(frames_tiled(self.frames(), self.current_pos as int));
                    if old(self).grounded() {
                        let source = encode_utf8(self.source_text());
                        assert(node.children@ == frames[0].children);
                        assert(on_boundary(source, frames[0].start as int));
                        assert forall|j: int| 0 <= j < node.children@.len() implies (
                        #[trigger] node.children@[j]).grounded(source) by {
                            assert(frames[0].children[j].grounded(source));
                        }
                        assert(node.grounded(source));
                        assert(held[0] == Element::Node(node));
                    }
                }
            }
        }
    }

    /// Hands out the tree. The outermost node must have been closed, and nothing may be
    /// open on top of the frame that holds it: one frame is left, whose first child is the
    /// root. Every operation of the builder keeps what is built tiled, so in the tree that
    /// comes out the children of every node fill the node's span exactly.
    pub fn finish(self) -> (r: SyntaxTree)
        requires
            self.is_closed(),
            self.frames().len() == 1,
            self.frames()[0].children.len() > 0,
            self.frames()[0].children[0] is Node,
        ensures
            Element::Node(r.root) == self.frames()[0].children[0],
            r.source@ == self.source_text(),
            self.tiled() ==> r.root.well_formed(),
            self.holds_whole_source() ==> r.well_formed(),
            forall|holds: spec_fn(SyntaxKind, Token) -> bool|
                self.all_tokens(holds) ==> #[trigger] r.root.all_tokens(holds),
            forall|holds: spec_fn(SyntaxKind, TextRange) -> bool|
                self.all_nodes(holds) ==> #[trigger] r.root.all_nodes(holds),
    {
        proof {
            let held = self.frames()[0].children;
            if self.tiled() {
                lemma_tiles_each(held, self.frames()[0].start as int, self.cursor() as int, 0);
            }
            if self.holds_whole_source() {
                assert(held.last() == held[0]);
                assert(tiles(held.drop_last(), 0, held[0].spec_span().start as int));
            }
        }
        let mut this = self;
        let mut children = this.stack.pop().unwrap().children;
        match children.swap_remove(0) {
            Element::Node(root) => SyntaxTree { root, source: this.source },
            Element::Token(_) => unreached(),
        }
    }
}

} // verus!
