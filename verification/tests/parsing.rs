//! The format parsers, driven byte by byte, and what the models foresee.

use augur::hashing::{csv_field, hstep, sql_field};
use augur::mode::Mode;
use augur::numeric::NUMSLOTS;
use augur::parser::ARRAY_TAG;
use augur::predictor::Predictor;

fn reading(mode: Mode, text: &[u8]) -> Predictor {
    let mut p = Predictor::new(mode);
    feed(&mut p, text);
    p
}

fn feed(p: &mut Predictor, text: &[u8]) {
    for &b in text {
        p.byte_boundary(b);
    }
}

fn name_hash(name: &[u8]) -> u32 {
    name.iter().fold(0x9e37_79b1, |h, &b| hstep(h, b))
}

fn foreseen(p: &Predictor) -> Option<Vec<u8>> {
    if p.parser.np_active {
        Some(p.parser.np_digits[p.parser.np_ptr..].to_vec())
    } else {
        None
    }
}

#[test]
fn json_fields_and_depth() {
    let mut p = reading(Mode::Json, b"{\"id\":");
    assert_eq!(p.field_hash(), name_hash(b"id"));
    assert_eq!(p.parser.stack.len(), 1);
    assert!(p.parser.json.value_pending);
    feed(&mut p, b"[");
    assert_eq!(p.field_hash(), ARRAY_TAG);
    assert_eq!(p.parser.stack.len(), 2);
    feed(&mut p, b"1,2]");
    assert_eq!(p.field_hash(), name_hash(b"id"));
    feed(&mut p, b",\"n\"");
    assert_eq!(p.field_hash(), name_hash(b"n"));
    feed(&mut p, b":null}");
    assert_eq!(p.field_hash(), 0);
    feed(&mut p, b"]}");
    assert_eq!(p.parser.stack.len(), 0);
}

#[test]
fn json_escapes_stay_in_the_string() {
    let mut p = reading(Mode::Json, b"{\"a\\\"b");
    assert!(p.parser.text.in_str);
    assert!(p.parser.json.str_is_key);
    feed(&mut p, b"\"");
    assert!(!p.parser.text.in_str);
    assert_eq!(p.field_hash(), name_hash(b"a\"b"));
    feed(&mut p, b":\"v");
    assert!(p.parser.text.in_str);
    assert!(!p.parser.json.str_is_key);
}

#[test]
fn json_values_are_foreseen() {
    let mut p = reading(Mode::Json, b"{\"id\":41}\n");
    assert_eq!(foreseen(&p), None);
    feed(&mut p, b"{\"id\":");
    assert_eq!(foreseen(&p), Some(b"41".to_vec()));
    feed(&mut p, b"42}\n{\"id\":");
    assert_eq!(foreseen(&p), Some(b"43".to_vec()));
    feed(&mut p, b"4");
    assert_eq!(foreseen(&p), Some(b"3".to_vec()));
    feed(&mut p, b"3");
    assert_eq!(foreseen(&p), Some(b"".to_vec()));
    feed(&mut p, b"}");
    assert_eq!(foreseen(&p), None);
    let slot = p.parser.num[name_hash(b"id") as usize % NUMSLOTS];
    assert_eq!((slot.last, slot.delta, slot.hits), (43, 1, 1));
    feed(&mut p, b"\n{\"id\":49");
    assert_eq!(foreseen(&p), None);
}

#[test]
fn json_negative_values_are_foreseen() {
    let mut p = reading(Mode::Json, b"[-3,-2,");
    assert_eq!(foreseen(&p), Some(b"-1".to_vec()));
    feed(&mut p, b"-1,");
    assert_eq!(foreseen(&p), Some(b"0".to_vec()));
}

#[test]
fn fractions_and_long_numbers_are_not_learned() {
    let slot = ARRAY_TAG as usize % NUMSLOTS;
    assert!(!reading(Mode::Json, b"[1.5,").parser.num[slot].seen);
    assert!(!reading(Mode::Json, b"[1e5,").parser.num[slot].seen);
    assert!(!reading(Mode::Json, b"[1E5,").parser.num[slot].seen);
    assert!(!reading(Mode::Json, b"[-,").parser.num[slot].seen);
    assert!(!reading(Mode::Json, b"[1234567890123456789,").parser.num[slot].seen);
    let p = reading(Mode::Json, b"[-123456789012345678,");
    assert_eq!(p.parser.num[slot].last, -123_456_789_012_345_678);
}

#[test]
fn csv_columns_and_forecasts() {
    let mut p = reading(Mode::Csv, b"1,5\n2,7\n");
    assert_eq!(p.parser.csv.col, 0);
    assert_eq!(foreseen(&p), Some(b"3".to_vec()));
    feed(&mut p, b"3,");
    assert_eq!(p.parser.csv.col, 1);
    assert_eq!(foreseen(&p), Some(b"9".to_vec()));
    let slot = p.parser.num[csv_field(0) as usize % NUMSLOTS];
    assert_eq!((slot.last, slot.delta, slot.hits), (3, 1, 1));
}

#[test]
fn csv_quotes_hide_commas() {
    let mut p = reading(Mode::Csv, b"\"a,b\n");
    assert!(p.parser.csv.in_quote);
    assert_eq!(p.parser.csv.col, 0);
    feed(&mut p, b"\",");
    assert!(!p.parser.csv.in_quote);
    assert_eq!(p.parser.csv.col, 1);
}

#[test]
fn sql_columns_and_forecasts() {
    let mut p = reading(Mode::Sql, b"INSERT INTO t VALUES (1,'a, (''b'),(2,'it\\'s'),(");
    assert_eq!(p.parser.parens.len(), 1);
    assert_eq!(p.parser.sql.col, 0);
    assert_eq!(foreseen(&p), Some(b"3".to_vec()));
    let slot = p.parser.num[sql_field(0, 1) as usize % NUMSLOTS];
    assert_eq!((slot.last, slot.delta), (2, 1));
    feed(&mut p, b"3,(7,8),");
    assert_eq!(p.parser.sql.col, 2);
    assert_eq!(p.parser.parens.len(), 1);
    feed(&mut p, b"9)");
    assert_eq!(p.parser.parens.len(), 0);
    feed(&mut p, b")))");
    assert_eq!(p.parser.parens.len(), 0);
}

#[test]
fn sql_numbers_outside_parentheses_are_not_learned() {
    let p = reading(Mode::Sql, b"LIMIT ,5,");
    assert!(!p.parser.num[sql_field(1, 0) as usize % NUMSLOTS].seen);
}

#[test]
fn sql_depth_is_capped() {
    let mut p = reading(Mode::Sql, &[b'('; 50]);
    assert_eq!(p.parser.parens.len(), 32);
    feed(&mut p, &[b')'; 50]);
    assert_eq!(p.parser.parens.len(), 0);
}

#[test]
fn xml_elements() {
    let mut p = reading(Mode::Xml, b"<a><b x='>'>t");
    assert_eq!(p.parser.elements, vec![name_hash(b"a"), name_hash(b"b")]);
    assert!(!p.parser.xml.in_tag);
    feed(&mut p, b"<c/>");
    assert_eq!(p.parser.elements.len(), 2);
    feed(&mut p, b"<d e=\"/");
    assert!(p.parser.xml.in_attr);
    feed(&mut p, b"\">");
    assert_eq!(p.parser.elements.len(), 3);
    feed(&mut p, b"</d></b>");
    assert_eq!(p.parser.elements, vec![name_hash(b"a")]);
    feed(&mut p, b"</a></a>");
    assert_eq!(p.parser.elements.len(), 0);
}

#[test]
fn xml_depth_is_capped() {
    let mut p = Predictor::new(Mode::Xml);
    for _ in 0..80 {
        feed(&mut p, b"<x>");
    }
    assert_eq!(p.parser.elements.len(), 64);
}

#[test]
fn generic_position_in_token() {
    let mut p = reading(Mode::Generic, b"ab cd");
    assert_eq!(p.parser.text.vpos, 2);
    feed(&mut p, b"\"");
    assert!(p.parser.text.in_str);
    assert_eq!(p.parser.text.vpos, 0);
    feed(&mut p, &[b' '; 40]);
    assert_eq!(p.parser.text.vpos, 31);
    feed(&mut p, b"\"\n");
    assert!(!p.parser.text.in_str);
    assert_eq!(p.parser.text.vpos, 0);
}

#[test]
fn first_probabilities() {
    let mut p = Predictor::new(Mode::Generic);
    let mut seen = Vec::new();
    for &b in b"abab abab" {
        for i in (0..8).rev() {
            seen.push(p.predict());
            p.update(((b >> i) & 1) as u32);
        }
    }
    assert_eq!(
        seen,
        vec![
            2048, 2048, 2048, 2048, 2048, 2048, 2048, 2048, 1996, 2096, 2096, 1996, 1996, 1996, 1996,
            2048, 1972, 2120, 2120, 1972, 1972, 1972, 2048, 2084, 1948, 2144, 2144, 1948, 1948, 1948,
            2048, 1996, 1960, 2132, 2048, 2048, 2048, 2048, 2048, 2048, 1976, 2088, 2108, 1984, 1984,
            1984, 2036, 2084, 1912, 2152, 2168, 1924, 1924, 1924, 2096, 1956, 1880, 2112, 2168, 1924,
            1924, 1924, 1996, 2136, 1841, 2224, 2239, 1849, 1849, 1849, 2148, 1892,
        ]
    );
}

#[test]
fn structure_keeps_contexts_apart() {
    let id = reading(Mode::Json, b"{\"id\":");
    let ts = reading(Mode::Json, b"{\"ts\":");
    assert_eq!(id.ctxh[0], ts.ctxh[0]);
    assert_eq!(id.ctxh[1], ts.ctxh[1]);
    assert_ne!(id.ctxh[5], ts.ctxh[5]);
    assert_ne!(id.ctxh[6], ts.ctxh[6]);
}

#[test]
fn copied_column_is_foreseen() {
    let mut p = Predictor::new(Mode::Csv);
    for &c in b"7,7\n100,100\n3,3\n55," {
        p.update_struct_csv(c);
    }
    assert_eq!(foreseen(&p), Some(b"55".to_vec()));
    let relation = p.parser.cross[csv_field(1) as usize % NUMSLOTS];
    assert_eq!((relation.source, relation.offset, relation.hits), (csv_field(0), 0, 2));
}

#[test]
fn related_column_is_foreseen_from_the_third_row_on() {
    let mut p = reading(Mode::Csv, b"7,7\n100,");
    assert_eq!(foreseen(&p), Some(b"7".to_vec()));
    feed(&mut p, b"100\n3,");
    assert_eq!(foreseen(&p), Some(b"3".to_vec()));
}

#[test]
fn offset_column_is_foreseen() {
    // id = seq + 100000, with a column between them that follows nothing
    let mut p = reading(Mode::Csv, b"5,1,100005\n9,8,100009\n2,3,");
    assert_eq!(foreseen(&p), Some(b"100002".to_vec()));
    feed(&mut p, b"100002\n70,-4,");
    assert_eq!(foreseen(&p), Some(b"100070".to_vec()));
}

#[test]
fn more_confident_hypothesis_is_followed() {
    // column 1 steps by 1; it also copied column 0 in the first two rows
    let mut p = reading(Mode::Csv, b"1,1\n2,2\n");
    feed(&mut p, b"9,");
    assert_eq!(foreseen(&p), Some(b"9".to_vec()));
    feed(&mut p, b"3\n20,4\n30,");
    assert_eq!(foreseen(&p), Some(b"5".to_vec()));
}

#[test]
fn new_row_begins_empty() {
    let mut p = reading(Mode::Csv, b"1,2");
    assert_eq!(p.parser.row.len(), 1);
    feed(&mut p, b",");
    assert_eq!(p.parser.row.len(), 2);
    feed(&mut p, b"\n");
    assert_eq!(p.parser.row.len(), 0);
}

#[test]
fn json_records_have_their_own_rows() {
    let mut p = reading(Mode::Json, b"{\"a\":1,\"b\":{\"c\":2},\"d\":3,");
    assert_eq!(p.parser.row.len(), 3);
    feed(&mut p, b"\"e\":[{");
    assert_eq!(p.parser.row.len(), 0);
    let mut q = reading(
        Mode::Json,
        b"{\"firstSeen\":70,\"lastSeen\":70}\n{\"firstSeen\":12,\"lastSeen\":12}\n",
    );
    feed(&mut q, b"{\"firstSeen\":33,\"lastSeen\":");
    assert_eq!(foreseen(&q), Some(b"33".to_vec()));
}

#[test]
fn sql_tuples_have_their_own_rows() {
    let mut p = reading(Mode::Sql, b"VALUES (10,(11,4)),(50,(51,2)),(7,(");
    assert_eq!(foreseen(&p), Some(b"8".to_vec()));
    assert_eq!(p.parser.row.len(), 1);
    feed(&mut p, b"8,0)),(");
    assert_eq!(p.parser.row.len(), 0);
}

#[test]
fn another_relation_is_learned_in_three_rows() {
    // column 2 copies column 1, and then stands at 50 from column 0
    let mut p = reading(Mode::Csv, b"4,9,9\n80,3,3\n7,71,");
    assert_eq!(foreseen(&p), Some(b"71".to_vec()));
    feed(&mut p, b"71\n");
    feed(&mut p, b"10,6,60\n33,5,83\n2,8,52\n19,1,");
    assert_eq!(foreseen(&p), Some(b"69".to_vec()));
}

#[test]
fn csv_text_gives_its_values() {
    let p = reading(Mode::Csv, b"-12,0,999999999999999999\n5,-7,");
    let known = |col: u32| {
        let slot = p.parser.num[csv_field(col) as usize % NUMSLOTS];
        (slot.seen, slot.last, slot.delta)
    };
    assert_eq!(known(0), (true, 5, 17));
    assert_eq!(known(1), (true, -7, -7));
    assert_eq!(known(2), (true, 999_999_999_999_999_999, 0));
    let row: Vec<(u32, i64, Option<i64>)> =
        p.parser.row.iter().map(|e| (e.field, e.value, e.before)).collect();
    assert_eq!(row, vec![(csv_field(0), 5, Some(-12)), (csv_field(1), -7, Some(0))]);
}

#[test]
fn csv_columns_do_not_share_a_place() {
    let mut taken = vec![false; NUMSLOTS];
    for col in 0..65536 {
        let slot = csv_field(col) as usize % NUMSLOTS;
        assert!(!taken[slot]);
        taken[slot] = true;
    }
}
