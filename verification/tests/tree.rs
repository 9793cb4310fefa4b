use oxc_toml::syntax::SyntaxKind;
use oxc_toml::tree::{text_range, DescendantsIter, Element, Node, Token, TreeBuilder};

fn small_tree() -> oxc_toml::tree::SyntaxTree {
    let mut builder = TreeBuilder::new("a=1\n");
    builder.start_node(SyntaxKind::ROOT);
    builder.start_node(SyntaxKind::ENTRY);
    builder.start_node(SyntaxKind::KEY);
    builder.token(SyntaxKind::IDENT, "a");
    builder.finish_node();
    builder.token(SyntaxKind::EQ, "=");
    builder.start_node(SyntaxKind::VALUE);
    builder.token(SyntaxKind::INTEGER, "1");
    builder.finish_node();
    builder.finish_node();
    builder.token(SyntaxKind::NEWLINE, "\n");
    builder.finish_node();
    builder.finish()
}

#[test]
fn text_range_is_start_to_end() {
    assert_eq!(text_range(3, 7), 3..7);
    assert_eq!(text_range(0, 0).len(), 0);
}

#[test]
fn builder_gives_spans_that_follow_the_cursor() {
    let tree = small_tree();
    assert_eq!(tree.source(), "a=1\n");
    let root = tree.root();
    assert_eq!(root.kind(), SyntaxKind::ROOT);
    assert_eq!(root.span, 0..4);
    assert_eq!(root.children().len(), 2);
    let entry = root.children()[0].as_node().unwrap();
    assert_eq!(entry.kind(), SyntaxKind::ENTRY);
    assert_eq!(entry.span, 0..3);
    assert_eq!(entry.text(tree.source()), "a=1");
    assert_eq!(entry.to_string(tree.source()), "a=1");
    let key = entry.first_child().unwrap().as_node().unwrap();
    assert_eq!((key.kind(), key.span.clone()), (SyntaxKind::KEY, 0..1));
    let eq = entry.children()[1].as_token().unwrap();
    assert_eq!((eq.kind(), eq.span.clone()), (SyntaxKind::EQ, 1..2));
    assert_eq!(eq.text(tree.source()), "=");
    assert_eq!(eq.to_string(tree.source()), "=");
    let value = entry.children()[2].as_node().unwrap();
    assert_eq!((value.kind(), value.span.clone()), (SyntaxKind::VALUE, 2..3));
    let newline = root.children_with_tokens()[1].as_token().unwrap();
    assert_eq!((newline.kind(), newline.span.clone()), (SyntaxKind::NEWLINE, 3..4));
    assert!(root.children()[1].as_node().is_none());
    assert!(root.children()[0].as_token().is_none());
}

#[test]
fn an_empty_node_has_an_empty_span_at_the_cursor() {
    let mut builder = TreeBuilder::new("ab");
    builder.start_node(SyntaxKind::ROOT);
    builder.token(SyntaxKind::IDENT, "ab");
    builder.start_node(SyntaxKind::KEY);
    builder.finish_node();
    builder.finish_node();
    let tree = builder.finish();
    let key = tree.root().children()[1].as_node().unwrap();
    assert_eq!(key.span, 2..2);
    assert!(key.children().is_empty());
    assert!(key.first_child().is_none());
    assert_eq!(key.text(tree.source()), "");
}

#[test]
fn a_token_without_an_open_node_only_moves_the_cursor() {
    let mut builder = TreeBuilder::new("xab");
    builder.token(SyntaxKind::IDENT, "x");
    builder.start_node(SyntaxKind::ROOT);
    builder.token(SyntaxKind::IDENT, "ab");
    builder.finish_node();
    let tree = builder.finish();
    assert_eq!(tree.root().span, 1..3);
    assert_eq!(tree.root().children().len(), 1);
    assert_eq!(tree.root().children()[0].text_range(), 1..3);
}

#[test]
fn what_is_built_after_the_root_is_left_out() {
    let mut builder = TreeBuilder::new("ab");
    builder.start_node(SyntaxKind::ROOT);
    builder.token(SyntaxKind::IDENT, "a");
    builder.finish_node();
    builder.token(SyntaxKind::IDENT, "b");
    let tree = builder.finish();
    assert_eq!(tree.root().span, 0..1);
    assert_eq!(tree.root().children().len(), 1);
}

#[test]
fn closing_the_holder_wraps_the_root_again() {
    let mut builder = TreeBuilder::new("a");
    builder.start_node(SyntaxKind::ROOT);
    builder.token(SyntaxKind::IDENT, "a");
    builder.finish_node();
    builder.finish_node();
    let tree = builder.finish();
    assert_eq!(tree.root().kind(), SyntaxKind::ROOT);
    assert_eq!(tree.root().span, 0..1);
    assert_eq!(tree.root().children().len(), 1);
    assert_eq!(tree.root().children()[0].kind(), SyntaxKind::ROOT);
}

#[test]
fn descendants_are_in_pre_order() {
    let tree = small_tree();
    let all: Vec<(SyntaxKind, std::ops::Range<usize>)> = tree
        .root()
        .descendants()
        .iter()
        .map(|e| (e.kind(), e.span().clone()))
        .collect();
    assert_eq!(
        all,
        vec![
            (SyntaxKind::ENTRY, 0..3),
            (SyntaxKind::KEY, 0..1),
            (SyntaxKind::IDENT, 0..1),
            (SyntaxKind::EQ, 1..2),
            (SyntaxKind::VALUE, 2..3),
            (SyntaxKind::INTEGER, 2..3),
            (SyntaxKind::NEWLINE, 3..4),
        ]
    );
    assert_eq!(tree.root().descendants_with_tokens().len(), 7);
}

#[test]
fn a_traversal_can_be_started_again() {
    let tree = small_tree();
    let mut first = DescendantsIter::new(tree.root());
    let mut count = 0;
    while let Some(_) = first.next() {
        count += 1;
    }
    assert_eq!(count, 7);
    assert!(first.next().is_none());
    let mut second = DescendantsIter::new(tree.root());
    assert_eq!(second.next().map(|e| e.kind()), Some(SyntaxKind::ENTRY));
    assert_eq!(second.next().map(|e| e.kind()), Some(SyntaxKind::KEY));
}

#[test]
fn a_traversal_of_a_leafless_node_is_empty() {
    let node = Node { kind: SyntaxKind::ARRAY, span: 0..0, children: Vec::new() };
    assert!(DescendantsIter::new(&node).next().is_none());
    assert!(node.descendants().is_empty());
}

#[test]
fn clones_are_alike() {
    let tree = small_tree();
    let copy = tree.clone();
    assert_eq!(copy.source(), tree.source());
    let a: Vec<_> = tree.root().descendants().iter().map(|e| (e.kind(), e.text_range())).collect();
    let b: Vec<_> = copy.root().descendants().iter().map(|e| (e.kind(), e.text_range())).collect();
    assert_eq!(a, b);
    let token = Token { kind: SyntaxKind::COMMA, span: 4..5 };
    let same = token.clone();
    assert_eq!((same.kind(), same.span), (SyntaxKind::COMMA, 4..5));
    let element = tree.root().children()[0].clone();
    assert_eq!(element.kind(), SyntaxKind::ENTRY);
    assert_eq!(element.as_node().unwrap().children().len(), 3);
}

#[test]
fn elements_come_from_nodes_and_tokens() {
    let token: Element = Token { kind: SyntaxKind::COMMA, span: 4..5 }.into();
    assert_eq!(token.kind(), SyntaxKind::COMMA);
    assert_eq!(token.text_range(), 4..5);
    assert_eq!(token.text("0123456"), "4");
    assert_eq!(token.to_string("0123456"), "4");
    let node: Element =
        Element::from(Node { kind: SyntaxKind::KEY, span: 1..3, children: Vec::new() });
    assert_eq!(node.kind(), SyntaxKind::KEY);
    assert_eq!(node.span(), &(1..3));
    assert_eq!(node.text("0123456"), "12");
}

#[test]
fn text_of_a_span_between_characters() {
    let source = "é=€";
    let token = Token { kind: SyntaxKind::ERROR, span: 3..6 };
    assert_eq!(token.text(source), "€");
    assert_eq!(token.to_string(source), "€");
}
