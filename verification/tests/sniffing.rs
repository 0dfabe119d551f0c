//! Telling the formats apart.

use augur::mode::{contains, sniff, Mode};

#[test]
fn mode_bytes() {
    for (mode, byte) in
        [(Mode::Generic, 0), (Mode::Json, 1), (Mode::Csv, 2), (Mode::Sql, 3), (Mode::Xml, 4)]
    {
        assert_eq!(mode.to_byte(), byte);
        assert_eq!(Mode::from_byte(byte), mode);
    }
    assert_eq!(Mode::from_byte(5), Mode::Generic);
    assert_eq!(Mode::from_byte(255), Mode::Generic);
}

#[test]
fn needles_in_hay() {
    assert!(contains(b"abc", b"abc"));
    assert!(contains(b"xabc", b"abc"));
    assert!(contains(b"aab", b"ab"));
    assert!(!contains(b"ab", b"abc"));
    assert!(!contains(b"acb", b"ab"));
    assert!(!contains(b"", b"a"));
}

#[test]
fn json_is_sniffed() {
    assert_eq!(sniff(b"{\"a\":1}\n"), Mode::Json);
    assert_eq!(sniff(b" \t\r\n\x0c[{\"a\":1}]"), Mode::Json);
    assert_eq!(sniff(b"[1,2,3]"), Mode::Csv);
    // one brace for every two lines is enough, for every three it is not
    assert_eq!(sniff(b"{\n"), Mode::Json);
    assert_eq!(sniff(b"{\n\n"), Mode::Generic);
}

#[test]
fn xml_is_sniffed() {
    assert_eq!(sniff(b"<a></a>"), Mode::Xml);
    assert_eq!(sniff(b"\n<?xml version"), Mode::Xml);
    assert_eq!(sniff(b"<br/>"), Mode::Xml);
    assert_eq!(sniff(b"<a>"), Mode::Generic);
    assert_eq!(sniff(b"x<a></a>"), Mode::Generic);
}

#[test]
fn sql_is_sniffed() {
    assert_eq!(sniff(b"-- dump\nINSERT INTO t VALUES (1);"), Mode::Sql);
    assert_eq!(sniff(b"CREATE TABLE t (a int);"), Mode::Sql);
    assert_eq!(sniff(b"insert into t values (1);"), Mode::Generic);
}

#[test]
fn csv_is_sniffed() {
    assert_eq!(sniff(b"a,b\n1,2\n,"), Mode::Csv);
    assert_eq!(sniff(b"a,b\n1,2\n"), Mode::Generic);
    assert_eq!(sniff(b"a,b"), Mode::Csv);
}

#[test]
fn nothing_is_generic() {
    assert_eq!(sniff(b""), Mode::Generic);
    assert_eq!(sniff(b"  \n "), Mode::Generic);
}

#[test]
fn only_a_prefix_counts() {
    let mut data = vec![b'x'; 65536];
    data.extend_from_slice(b"INSERT INTO");
    assert_eq!(sniff(&data), Mode::Generic);
    data[65525..65536].copy_from_slice(b"INSERT INTO");
    assert_eq!(sniff(&data), Mode::Sql);
    data[65525] = b'x';
    data[65526..65537].copy_from_slice(b"INSERT INTO");
    assert_eq!(sniff(&data), Mode::Generic);
}
