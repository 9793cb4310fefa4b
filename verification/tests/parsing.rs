use oxc_toml::parser::parse;
use oxc_toml::syntax::SyntaxKind;
use oxc_toml::tree::{Element, Node};

fn dump(node: &Node, source: &str, out: &mut String) {
    out.push_str(&format!("{:?}(", node.kind()));
    for child in node.children() {
        match child {
            Element::Node(n) => dump(n, source, out),
            Element::Token(t) => out.push_str(&format!("{:?}{:?} ", t.kind(), t.text(source))),
        }
    }
    out.push_str(") ");
}

fn shape(source: &str) -> String {
    let parsed = parse(source);
    let mut out = String::new();
    dump(parsed.tree.root(), parsed.tree.source(), &mut out);
    out
}

fn leaves(node: &Node, source: &str, out: &mut String) {
    for element in node.descendants() {
        if let Some(token) = element.as_token() {
            out.push_str(token.text(source));
        }
    }
}

fn lossless(source: &str) {
    let parsed = parse(source);
    assert_eq!(parsed.tree.source(), source);
    assert_eq!(parsed.tree.root().kind(), SyntaxKind::ROOT);
    assert_eq!(parsed.tree.root().span, 0..source.len());
    assert_eq!(parsed.tree.root().text(source), source);
    let mut text = String::new();
    leaves(parsed.tree.root(), source, &mut text);
    assert_eq!(text, source);
    for error in &parsed.errors {
        assert!(error.offset <= source.len());
    }
}

fn messages(source: &str) -> Vec<(usize, String)> {
    parse(source).errors.iter().map(|e| (e.offset, e.message.clone())).collect()
}

#[test]
fn empty_input_gives_an_empty_root() {
    let parsed = parse("");
    assert!(parsed.errors.is_empty());
    assert_eq!(parsed.tree.root().kind(), SyntaxKind::ROOT);
    assert_eq!(parsed.tree.root().span, 0..0);
    assert!(parsed.tree.root().children().is_empty());
    assert!(parsed.tree.root().first_child().is_none());
}

#[test]
fn an_entry_is_key_eq_value() {
    assert_eq!(
        shape("a = 1"),
        "ROOT(ENTRY(KEY(IDENT\"a\" WHITESPACE\" \" ) EQ\"=\" WHITESPACE\" \" VALUE(INTEGER\"1\" ) ) ) "
    );
    assert!(parse("a = 1").errors.is_empty());
}

#[test]
fn a_dotted_key_keeps_its_periods() {
    assert_eq!(
        shape("a.\"b\".'c'=true"),
        "ROOT(ENTRY(KEY(IDENT\"a\" PERIOD\".\" STRING\"\\\"b\\\"\" PERIOD\".\" STRING_LITERAL\"'c'\" ) EQ\"=\" VALUE(BOOL\"true\" ) ) ) "
    );
    assert!(parse("a.\"b\".'c'=true").errors.is_empty());
}

#[test]
fn table_headers() {
    assert_eq!(
        shape("[a.b]\n[[c]]"),
        "ROOT(TABLE_HEADER(BRACKET_START\"[\" KEY(IDENT\"a\" PERIOD\".\" IDENT\"b\" ) BRACKET_END\"]\" ) NEWLINE\"\\n\" TABLE_ARRAY_HEADER(BRACKET_START\"[\" BRACKET_START\"[\" KEY(IDENT\"c\" ) BRACKET_END\"]\" BRACKET_END\"]\" ) ) "
    );
    assert!(parse("[a.b]\n[[c]]").errors.is_empty());
}

#[test]
fn arrays_and_inline_tables_nest() {
    assert_eq!(
        shape("a=[1,{b=2}]"),
        "ROOT(ENTRY(KEY(IDENT\"a\" ) EQ\"=\" VALUE(ARRAY(BRACKET_START\"[\" VALUE(INTEGER\"1\" ) COMMA\",\" VALUE(INLINE_TABLE(BRACE_START\"{\" ENTRY(KEY(IDENT\"b\" ) EQ\"=\" VALUE(INTEGER\"2\" ) ) BRACE_END\"}\" ) ) BRACKET_END\"]\" ) ) ) ) "
    );
    assert!(parse("a=[1,{b=2}]").errors.is_empty());
}

#[test]
fn valid_documents_have_no_errors() {
    for source in [
        "",
        "\n\n",
        "# only a comment",
        "a = 1\nb = 2\n",
        "a = 'x'\r\nb = \"y\\n\"\r\n",
        "a = \"\"\"multi\nline\"\"\"\nb = '''raw\nlines'''",
        "a = [1, 2, 3]\nb = [\n  1,\n  2, # two\n]\n",
        "a = {b = 1, c = {d = [true, false]}}",
        "a = { b = 1, }",
        "a = {\n b = 1\n}",
        "[table]\nkey = 1979-05-27T07:32:00Z\n[[array.of.tables]]\nx = 07:32:00\n",
        "1 = 1\n1.2 = 3\n2024-02-29 = 4\ntrue = 5\n0x1f = 6\n\"quoted key\" = 7\n",
        "a = 0\nb = +0\nc = -0\nd = 1_000\ne = 0xdead_beef\nf = 0o7_5\ng = 0b1_0",
        "a = 0.5\nb = 1e6\nc = 1_0.0_1e-0_1\nd = +inf\ne = -nan\nf = inf\ng = nan",
        "a . b = 1",
        "a = []\nb = {}\nc = [[], [[]]]",
    ] {
        assert_eq!(messages(source), vec![], "{source:?}");
        lossless(source);
    }
}

#[test]
fn invalid_documents_have_errors() {
    for source in [
        "a",
        "a =",
        "= 1",
        "a = 1 b = 2",
        "a = [1, 2",
        "a = [1 2]",
        "a = [,]",
        "a = [1,,2]",
        "a = {b = 1",
        "a = {b = 1 c = 2}",
        "a = {,}",
        "[a",
        "[a]]",
        "[[a]",
        "[[a] ]",
        "[a] b = 1",
        "a = 01",
        "a = 1__0",
        "a = _1",
        "a = 1_",
        "a = 0x_1",
        "a = 00.5",
        "a = 1_.5",
        "a = \"unterminated",
        "a = 'unterminated",
        "a = \"\"\"unterminated",
        "a = \"bad \\q escape\"",
        "a = \"bad \\uD800 escape\"",
        "a = \"control \u{1} character\"",
        "a = 'control \u{7f} character'",
        "a = \"line\nbreak\"",
        "# comment with \u{0} in it",
        "a = 2023-02-29",
        "a = 1979-05-27T07:32:00+24:00",
        "a = abc",
        "a.*.b = 1",
        "a..b = 1",
        "a. = 1",
        ".a = 1",
        "+1 = 2",
        "\"\"\"key\"\"\" = 1",
        "a = é",
        "\r",
        "a = 1\rb = 2",
        "]",
        "}",
    ] {
        assert!(!parse(source).errors.is_empty(), "{source:?}");
        lossless(source);
    }
}

#[test]
fn unterminated_string_gives_errors_and_a_lossless_tree() {
    let source = "title = \"never closed\nnext = 1\n";
    let parsed = parse(source);
    assert!(!parsed.errors.is_empty());
    let mut text = String::new();
    leaves(parsed.tree.root(), source, &mut text);
    assert_eq!(text, source);
}

#[test]
fn errors_carry_offsets_and_messages() {
    assert_eq!(messages("a = "), vec![(4, "expected value".to_string())]);
    assert_eq!(messages("a 1"), vec![(2, "expected \"=\"".to_string())]);
    assert_eq!(messages("a = 01"), vec![(4, "zero-padded numbers are not allowed".to_string())]);
    assert_eq!(messages("a = 1__0"), vec![(4, "invalid underscores".to_string())]);
    assert_eq!(messages("a = \"x\\qy\\wz\""), vec![
        (6, "invalid escape sequence".to_string()),
        (9, "invalid escape sequence".to_string()),
    ]);
    assert_eq!(messages("a = 'x\u{1}y'"), vec![(6, "invalid control character in string".to_string())]);
    assert_eq!(messages("#\u{1}"), vec![(1, "invalid control character in comment".to_string())]);
    assert_eq!(messages("a = 1 b"), vec![(6, "expected new line".to_string())]);
    assert_eq!(messages("a = é"), vec![
        (4, "unexpected token".to_string()),
        (6, "expected value".to_string()),
    ]);
    assert_eq!(messages("a = [1 2]"), vec![(7, "expected \",\"".to_string())]);
    assert_eq!(messages("a = [,1]"), vec![(5, "unexpected \",\"".to_string())]);
    assert_eq!(messages("a = [1"), vec![(6, "expected \"]\"".to_string())]);
    assert_eq!(messages("a = {b = 1"), vec![(10, "expected \"}\"".to_string())]);
    assert_eq!(messages("[a"), vec![(2, "expected \"]\"".to_string())]);
    assert_eq!(messages("[[a]"), vec![(4, "expected \"]]\"".to_string())]);
    assert_eq!(messages("[[a] ]"), vec![(4, "expected \"]]\"".to_string()), (5, "expected new line".to_string())]);
    assert_eq!(messages("* = 1"), vec![(0, "expected identifier".to_string())]);
}

#[test]
fn every_fault_inside_a_token_is_told() {
    assert_eq!(
        messages("\"a\\qb\u{1}\" = \"\\w\u{2}\\z\" # c\u{3}d\u{4}"),
        vec![
            (5, "invalid control character in string".to_string()),
            (2, "invalid escape sequence".to_string()),
            (13, "invalid control character in string".to_string()),
            (11, "invalid escape sequence".to_string()),
            (14, "invalid escape sequence".to_string()),
            (21, "invalid control character in comment".to_string()),
            (23, "invalid control character in comment".to_string()),
        ]
    );
    assert_eq!(
        messages("a = \"\"\"x\u{1}\ny\\q\"\"\""),
        vec![
            (8, "invalid control character in string".to_string()),
            (11, "invalid escape sequence".to_string()),
        ]
    );
    assert_eq!(
        messages("a = \'\'\'x\u{1}\ny\\q\'\'\'"),
        vec![(8, "invalid control character in string".to_string())]
    );
}

#[test]
fn an_unexpected_token_becomes_an_error_token() {
    assert_eq!(
        shape("a = 1 b"),
        "ROOT(ENTRY(KEY(IDENT\"a\" WHITESPACE\" \" ) EQ\"=\" WHITESPACE\" \" VALUE(INTEGER\"1\" ) ) WHITESPACE\" \" ERROR\"b\" ) "
    );
    assert_eq!(
        shape("a = 01"),
        "ROOT(ENTRY(KEY(IDENT\"a\" WHITESPACE\" \" ) EQ\"=\" WHITESPACE\" \" VALUE(ERROR\"01\" ) ) ) "
    );
}

#[test]
fn any_text_parses_to_a_lossless_tree() {
    for source in [
        "\u{0}\u{1}\u{2}",
        "ééé €€€ 𝄞𝄞𝄞",
        "[[[[[[[[[[",
        "]]]]]]]]]]",
        "{{{{{{{{{{",
        "}}}}}}}}}}",
        "a = [[[[{b = [{c = [",
        "= = = = = =",
        ",,,,....",
        "\"\"\"\"\"\"\"\"\"\"\"\"",
        "''''''''''''''",
        "a = \"\\",
        "\\\\\\",
        "a = 1979-05-27T07:32:00+",
        "a = 1e",
        "a = +",
        "a = -",
        "#\n#\r\n#\r#",
        "key = # comment\n",
        "\t \t",
        "\r\r\n\r",
        "a=1\u{feff}",
    ] {
        lossless(source);
    }
}

#[test]
fn descendants_come_in_document_order() {
    let source = "a = [1, 2]";
    let parsed = parse(source);
    let kinds: Vec<SyntaxKind> =
        parsed.tree.root().descendants_with_tokens().iter().map(|e| e.kind()).collect();
    assert_eq!(
        kinds,
        vec![
            SyntaxKind::ENTRY,
            SyntaxKind::KEY,
            SyntaxKind::IDENT,
            SyntaxKind::WHITESPACE,
            SyntaxKind::EQ,
            SyntaxKind::WHITESPACE,
            SyntaxKind::VALUE,
            SyntaxKind::ARRAY,
            SyntaxKind::BRACKET_START,
            SyntaxKind::VALUE,
            SyntaxKind::INTEGER,
            SyntaxKind::COMMA,
            SyntaxKind::WHITESPACE,
            SyntaxKind::VALUE,
            SyntaxKind::INTEGER,
            SyntaxKind::BRACKET_END,
        ]
    );
    let mut spans = Vec::new();
    for element in parsed.tree.root().descendants() {
        spans.push(element.text_range());
        assert_eq!(element.span(), &element.text_range());
        assert_eq!(element.text(source), &source[element.text_range()]);
        assert_eq!(element.to_string(source), source[element.text_range()].to_string());
    }
    assert_eq!(spans[0], 0..10);
    assert_eq!(spans[6], 4..10);
    assert_eq!(spans[7], 4..10);
}
