//! What the command line names.

use augur::cli::{compressed_name, parse_io, restored_name};

fn words(line: &str) -> Vec<String> {
    line.split(' ').filter(|w| !w.is_empty()).map(|w| w.to_string()).collect()
}

fn named(input: &str, output: &str) -> Option<(String, String)> {
    Some((input.to_string(), output.to_string()))
}

#[test]
fn output_defaults_to_the_input() {
    assert_eq!(parse_io(&words("data.csv"), compressed_name), named("data.csv", "data.csv.augur"));
    assert_eq!(parse_io(&words("data.csv.augur"), restored_name), named("data.csv.augur", "data.csv"));
    assert_eq!(parse_io(&words("x y z"), |s| format!("<{s}>")), named("x", "<x>"));
}

#[test]
fn output_flag_names_the_output() {
    assert_eq!(parse_io(&words("in -o out"), compressed_name), named("in", "out"));
    assert_eq!(parse_io(&words("--output out in"), compressed_name), named("in", "out"));
    assert_eq!(parse_io(&words("-o a in -o b"), compressed_name), named("in", "b"));
    assert_eq!(parse_io(&words("-o -o in"), compressed_name), named("in", "-o"));
    assert_eq!(parse_io(&words("in -o"), compressed_name), named("in", "in.augur"));
    assert_eq!(parse_io(&words("-o a in -o"), compressed_name), named("in", "in.augur"));
}

#[test]
fn no_input_is_nothing() {
    assert_eq!(parse_io(&[], compressed_name), None);
    assert_eq!(parse_io(&words("-o out"), compressed_name), None);
    assert_eq!(parse_io(&words("-o"), compressed_name), None);
}

#[test]
fn file_names() {
    assert_eq!(compressed_name("a.b"), "a.b.augur");
    assert_eq!(compressed_name(""), ".augur");
    assert_eq!(restored_name("a.b.augur"), "a.b");
    assert_eq!(restored_name(".augur"), "");
    assert_eq!(restored_name("augur"), "augur.out");
    assert_eq!(restored_name("a.augur.gz"), "a.augur.gz.out");
    assert_eq!(restored_name("\u{e9}t\u{e9}.augur"), "\u{e9}t\u{e9}");
    assert_eq!(restored_name(&compressed_name("notes")), "notes");
}
