use oxc_toml::{parse, Options};
use oxc_toml::formatter;
use oxc_toml::formatter::format_syntax;

fn fmt(source: &str) -> String {
    formatter::format(source, Options::default())
}

fn strip(text: &str) -> String {
    text.chars().filter(|c| !matches!(c, ' ' | '\t' | '\n' | '\r')).collect()
}

const DOCUMENTS: [&str; 25] = [
    "",
    "\n\n\n",
    "   ",
    "value=1\n[table]\nstring='some string'",
    "# Comment\nvalue=1",
    "\n[package]\nname=\"test\"\nversion=\"1.0.0\"\n\n[dependencies]\nfoo=\"1.0\"\nbar  =   \"2.0\"\n",
    "a   =   1   # trailing\n\n\n\n\n\nb=2",
    "  indented = true\n\t[ table . sub ]\n  [[ array ]]\n",
    "a=[1,2,3]\nb=[ 1 , 2 , 3 ]\nc=[]\nd=[ ]\ne=[[1,2],[3]]",
    "a=[\n1,\n2, # two\n# alone\n[3,\n4],\n]\n",
    "a={b=1,c={d=2}}\ne={}\nf={ }\ng = { h = [ { i = 1 } ] }",
    "a = {\n  b = 1,\n  c = [\n    1,\n  ],\n}\n",
    "a . b . \"c d\" = 'x'",
    "s = \"  spaces   kept  \"\nm = \"\"\"\n  kept\n\n\n\n  too  \"\"\"\n",
    "d = 1979-05-27 07:32:00\nt = 07:32:00.5\no = 1979-05-27T07:32:00-07:00",
    "f = +inf\ng = -nan\nh = nan\ni = 1_000.5e-3\nj = 0xff",
    "a = 1\r\nb = 2\r\n\r\n\r\n\r\n\r\nc = 3\r\n",
    "1.2 = 3\n1 . 2 = 4",
    "a = \"unterminated\nb = 1",
    "a = 1 b = 2",
    "a = [1 2 3",
    "= = é { } ] [",
    "a = 01\nb = [,]\n[x\n[[y]",
    "#c1\n#c2\n\n#c3\na=1#c4",
    "t = [07:32:00 , 1979-05-27T07:32:00 ,\n 07:32:00.25 , 1979-05-27 ]",
];

#[test]
fn entries_get_one_blank_on_each_side_of_the_equals_sign() {
    assert_eq!(fmt("a=1"), "a = 1\n");
    assert_eq!(fmt("a   =\t1"), "a = 1\n");
    assert_eq!(fmt("a = 1\n"), "a = 1\n");
    assert_eq!(fmt("a.b.c=1"), "a.b.c = 1\n");
    assert_eq!(fmt("a . b=1"), "a.b = 1\n");
}

#[test]
fn scenario_documents() {
    assert_eq!(
        fmt("value=1\n[table]\nstring='some string'"),
        "value = 1\n[table]\nstring = 'some string'\n"
    );
    assert_eq!(fmt("# Comment\nvalue=1"), "# Comment\nvalue = 1\n");
    assert_eq!(
        fmt("\n[package]\nname=\"test\"\nversion=\"1.0.0\"\n\n[dependencies]\nfoo=\"1.0\"\nbar  =   \"2.0\"\n"),
        "[package]\nname = \"test\"\nversion = \"1.0.0\"\n\n[dependencies]\nfoo = \"1.0\"\nbar = \"2.0\"\n"
    );
}

#[test]
fn empty_documents_stay_empty() {
    assert_eq!(fmt(""), "");
    assert_eq!(fmt("\n\n"), "");
    assert_eq!(fmt("  \t "), "");
}

#[test]
fn headers_lose_their_blanks() {
    assert_eq!(fmt("  [ a . b ]  "), "[a.b]\n");
    assert_eq!(fmt("[[ a ]]"), "[[a]]\n");
}

#[test]
fn arrays_on_one_line() {
    assert_eq!(fmt("a=[1,2,3]"), "a = [1, 2, 3]\n");
    assert_eq!(fmt("a=[ 1 , 2 , 3 ]"), "a = [1, 2, 3]\n");
    assert_eq!(fmt("a=[ ]"), "a = []\n");
    assert_eq!(fmt("a=[[1,2],[3]]"), "a = [[1, 2], [3]]\n");
    assert_eq!(fmt("a=[1,2,]"), "a = [1, 2,]\n");
}

#[test]
fn arrays_on_several_lines_are_indented() {
    assert_eq!(
        fmt("a=[\n1,\n   2, # two\n# alone\n[3,\n4],\n]\n"),
        "a = [\n  1,\n  2, # two\n  # alone\n  [3,\n    4],\n]\n"
    );
}

#[test]
fn a_time_is_not_joined_to_a_comma() {
    assert_eq!(fmt("a=[07:32:00 , 5]"), "a = [07:32:00 , 5]\n");
    assert_eq!(fmt("a=[1979-05-27T07:32:00 ,1]"), "a = [1979-05-27T07:32:00 , 1]\n");
    assert_eq!(fmt("a=[07:32:00.5 , 5]"), "a = [07:32:00.5 , 5]\n");
    assert_eq!(fmt("a=[07:32:00.5, 5]"), "a = [07:32:00.5, 5]\n");
    assert_eq!(fmt("a=[1979-05-27T07:32:00Z , 1]"), "a = [1979-05-27T07:32:00Z, 1]\n");
    assert_eq!(fmt("a={t=07:32:00 ,u=1}"), "a = { t = 07:32:00 , u = 1 }\n");
    for source in ["a=[07:32:00 , 5]", "a=[1979-05-27 07:32:00 ,1]", "a={t=07:32:00 ,u=1}"] {
        assert!(parse(source).errors.is_empty());
        assert!(parse(&fmt(source)).errors.is_empty());
    }
}

#[test]
fn an_integer_is_not_joined_to_a_period() {
    assert_eq!(fmt("1 . 5 = 1"), "1 .5 = 1\n");
    assert_eq!(fmt("1 . 1979-05-27 = 1"), "1 .1979-05-27 = 1\n");
    assert_eq!(fmt("a . 1 . b = 1"), "a.1 .b = 1\n");
    assert_eq!(fmt("1.5 = 1"), "1.5 = 1\n");
    assert_eq!(fmt("a . b = 1"), "a.b = 1\n");
}

#[test]
fn inline_tables() {
    assert_eq!(fmt("a={b=1,c={d=2}}"), "a = { b = 1, c = { d = 2 } }\n");
    assert_eq!(fmt("a={ }"), "a = {}\n");
    assert_eq!(fmt("a={\nb=1,\n}"), "a = {\n  b = 1,\n}\n");
}

#[test]
fn comments_keep_their_text() {
    assert_eq!(fmt("a=1#c"), "a = 1 #c\n");
    assert_eq!(fmt("a=1      #   c  "), "a = 1 #   c  \n");
    assert_eq!(fmt("   # alone"), "# alone\n");
}

#[test]
fn blank_lines_are_capped() {
    assert_eq!(fmt("a=1\n\n\n\n\n\nb=2"), "a = 1\n\n\nb = 2\n");
    assert_eq!(fmt("a=1\n \n \t\n\n\n\nb=2"), "a = 1\n\n\nb = 2\n");
    assert_eq!(fmt("a=1\n\nb=2"), "a = 1\n\nb = 2\n");
    assert_eq!(fmt("a=1\nb=2\n\n\n\n"), "a = 1\nb = 2\n");
    let none = Options { allowed_blank_lines: 0, ..Options::default() };
    assert_eq!(formatter::format("a=1\n\n\nb=2", none), "a = 1\nb = 2\n");
    let all = Options { allowed_blank_lines: usize::MAX, ..Options::default() };
    assert_eq!(formatter::format("a=1\n\n\n\n\nb=2", all), "a = 1\n\n\n\n\nb = 2\n");
}

#[test]
fn literal_content_is_untouched() {
    assert_eq!(fmt("s=\"  a   b  \""), "s = \"  a   b  \"\n");
    assert_eq!(fmt("s='''\n  a\n\n\n\n  b  '''"), "s = '''\n  a\n\n\n\n  b  '''\n");
    assert_eq!(fmt("d=1979-05-27 07:32:00"), "d = 1979-05-27 07:32:00\n");
    assert_eq!(fmt("\"a  b\"=1"), "\"a  b\" = 1\n");
}

#[test]
fn line_endings() {
    assert_eq!(fmt("a=1\r\nb=2\r\n"), "a = 1\nb = 2\n");
    let crlf = Options { crlf: true, ..Options::default() };
    assert_eq!(formatter::format("a=1\nb=2", crlf), "a = 1\r\nb = 2\r\n");
    assert_eq!(formatter::format("a=1\r\n\r\nb=2\r\n", crlf), "a = 1\r\n\r\nb = 2\r\n");
}

#[test]
fn options_have_their_effect() {
    let source = "a=[1,{b=2}]\nc=[\n3]";
    let compact_entries = Options { compact_entries: true, ..Options::default() };
    assert_eq!(formatter::format(source, compact_entries), "a=[1, { b=2 }]\nc=[\n  3]\n");
    let wide_arrays = Options { compact_arrays: false, ..Options::default() };
    assert_eq!(formatter::format(source, wide_arrays), "a = [ 1, { b = 2 } ]\nc = [\n  3 ]\n");
    let compact_tables = Options { compact_inline_tables: true, ..Options::default() };
    assert_eq!(formatter::format(source, compact_tables), "a = [1, {b = 2}]\nc = [\n  3]\n");
    let indent = Options { indent_width: 4, ..Options::default() };
    assert_eq!(formatter::format(source, indent), "a = [1, { b = 2 }]\nc = [\n    3]\n");
    let no_indent = Options { indent_width: 0, ..Options::default() };
    assert_eq!(formatter::format(source, no_indent), "a = [1, { b = 2 }]\nc = [\n3]\n");
    let no_newline = Options { trailing_newline: false, ..Options::default() };
    assert_eq!(formatter::format(source, no_newline), "a = [1, { b = 2 }]\nc = [\n  3]");
    assert_eq!(formatter::format("a=1\n\n", no_newline), "a = 1");
}

#[test]
fn default_options() {
    let options = Options::default();
    assert!(!options.compact_entries);
    assert!(options.compact_arrays);
    assert!(!options.compact_inline_tables);
    assert_eq!(options.indent_width, 2);
    assert_eq!(options.allowed_blank_lines, 2);
    assert!(options.trailing_newline);
    assert!(!options.crlf);
}

#[test]
fn errors_are_written_as_they_stand() {
    assert_eq!(fmt("a = \"unterminated"), "a = \"unterminated\n");
    assert_eq!(fmt("a =\u{1}1"), "a = \u{1}1\n");
    assert_eq!(fmt("a = é"), "a = é\n");
    assert_eq!(fmt("a = 01"), "a = 01\n");
    assert_eq!(fmt("a=1 b=2"), "a = 1 b=2\n");
}

#[test]
fn formatting_is_idempotent() {
    for source in DOCUMENTS {
        for options in [
            Options::default(),
            Options { compact_entries: true, compact_arrays: false, ..Options::default() },
            Options { compact_inline_tables: true, indent_width: 3, ..Options::default() },
            Options { crlf: true, allowed_blank_lines: 0, ..Options::default() },
            Options { trailing_newline: false, ..Options::default() },
        ] {
            let once = formatter::format(source, options);
            let twice = formatter::format(&once, options);
            assert_eq!(once, twice, "{source:?} {options:?}");
        }
    }
}

#[test]
fn formatting_changes_layout_only() {
    for source in DOCUMENTS {
        assert_eq!(strip(&fmt(source)), strip(source), "{source:?}");
    }
}

#[test]
fn formatting_keeps_the_tokens() {
    for source in DOCUMENTS {
        let before = parse(source);
        let after = parse(&fmt(source));
        assert_eq!(before.errors.is_empty(), after.errors.is_empty(), "{source:?}");
    }
}

#[test]
fn format_syntax_formats_a_parsed_tree() {
    for source in DOCUMENTS {
        let parsed = parse(source);
        assert_eq!(format_syntax(&parsed.tree, Options::default()), fmt(source));
    }
}

#[test]
fn any_text_formats() {
    for source in [
        "\u{0}\u{1}\u{2}",
        "ééé €€€ 𝄞𝄞𝄞",
        "[[[[[[[[[[",
        "a = [[[[{b = [{c = [",
        "\"\"\"\"\"\"\"\"\"\"\"\"",
        "\r\r\n\r",
        "a=1\u{feff}",
    ] {
        let once = fmt(source);
        assert_eq!(strip(&once), strip(source));
    }
}
