use oxc_toml::{parse, Options};
use oxc_toml::formatter;
use oxc_toml::syntax::SyntaxKind;

const VALUES: [&str; 30] = [
    "1",
    "+1",
    "-0",
    "1_000",
    "0xff",
    "0o17",
    "0b101",
    "1.5",
    "1e5",
    "-1.5e-3",
    "+inf",
    "-nan",
    "inf",
    "nan",
    "true",
    "false",
    "1979-05-27",
    "07:32:00",
    "07:32:00.5",
    "1979-05-27T07:32:00",
    "1979-05-27 07:32:00.25",
    "1979-05-27T07:32:00Z",
    "1979-05-27T07:32:00+01:00",
    "\"s\"",
    "\"a \\\" b\"",
    "'l'",
    "\"\"\"m\nm\"\"\"",
    "'''m\n'm'''",
    "[]",
    "{}",
];

const KEYS: [&str; 10] =
    ["a", "a-b_c", "\"q k\"", "'l'", "1", "1e5", "true", "1979-05-27", "0x1", "1.5"];

const GAPS: [&str; 4] = ["", " ", "  \t", " \n "];

fn significant(source: &str) -> Vec<(SyntaxKind, String)> {
    let parsed = parse(source);
    parsed
        .tree
        .root()
        .descendants()
        .iter()
        .filter_map(|e| e.as_token())
        .filter(|t| t.kind() != SyntaxKind::WHITESPACE && t.kind() != SyntaxKind::NEWLINE)
        .map(|t| (t.kind(), t.text(source).to_string()))
        .collect()
}

fn check(source: &str, options: Options) {
    let before = parse(source);
    let once = formatter::format(source, options);
    let twice = formatter::format(&once, options);
    assert_eq!(once, twice, "not stable: {source:?} {options:?}");
    if before.errors.is_empty() {
        let after = parse(&once);
        assert!(after.errors.is_empty(), "no longer valid: {source:?} -> {once:?} {options:?}");
        assert_eq!(significant(source), significant(&once), "{source:?} -> {once:?}");
    }
}

fn all_options() -> Vec<Options> {
    let mut out = Vec::new();
    for compact_entries in [false, true] {
        for compact_arrays in [false, true] {
            for compact_inline_tables in [false, true] {
                out.push(Options {
                    compact_entries,
                    compact_arrays,
                    compact_inline_tables,
                    ..Options::default()
                });
            }
        }
    }
    out.push(Options { crlf: true, indent_width: 0, ..Options::default() });
    out.push(Options { trailing_newline: false, allowed_blank_lines: 0, ..Options::default() });
    out
}

#[test]
fn every_value_survives_as_an_entry() {
    for options in all_options() {
        for value in VALUES {
            for gap in ["", " ", "\t "] {
                check(&format!("k{gap}={gap}{value}{gap}"), options);
                check(&format!("k{gap}={gap}{value}{gap}# c\n"), options);
            }
        }
    }
}

#[test]
fn every_pair_of_values_survives_in_an_array() {
    for options in all_options() {
        for first in VALUES {
            for second in VALUES {
                for gap in GAPS {
                    check(&format!("k = [{gap}{first}{gap},{gap}{second}{gap}]"), options);
                    check(&format!("k = [{gap}{first}{gap},{gap}{second}{gap},{gap}]"), options);
                }
            }
        }
    }
}

#[test]
fn every_pair_of_values_survives_in_an_inline_table() {
    for options in all_options() {
        for first in VALUES {
            for second in VALUES {
                for gap in GAPS {
                    check(
                        &format!("k = {{{gap}a{gap}={gap}{first}{gap},{gap}b{gap}={gap}{second}{gap}}}"),
                        options,
                    );
                }
            }
        }
    }
}

#[test]
fn every_pair_of_key_parts_survives() {
    for options in all_options() {
        for first in KEYS {
            for second in KEYS {
                for gap in ["", " ", "\t"] {
                    let key = format!("{first}{gap}.{gap}{second}");
                    check(&format!("{key}{gap}={gap}1"), options);
                    check(&format!("[{gap}{key}{gap}]"), options);
                    check(&format!("[[{gap}{key}{gap}]]{gap}"), options);
                    check(&format!("t = {{{gap}{key}{gap}={gap}1{gap}}}"), options);
                }
            }
        }
    }
}

#[test]
fn nested_values_survive() {
    for options in all_options() {
        for value in VALUES {
            for gap in GAPS {
                check(&format!("k = [{gap}[{gap}{value}{gap}]{gap},{gap}{{{gap}a = {value}{gap}}}{gap}]"), options);
                check(&format!("k = {{{gap}a = [{gap}{value}{gap}, [{gap}]{gap}]{gap}}}"), options);
                check(&format!("[t]{gap}\nk = {value}{gap}\n\n\n\n# c\n[[u]]\nk = [\n{value},{gap}# c\n{value}\n]\n"), options);
            }
        }
    }
}
