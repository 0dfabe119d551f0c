//! Hashes, match models and the numeric model.

use augur::hashing::{csv_field, hash_n, hstep, sql_field};
use augur::match_model::{backmatch, conf_prob, vote, MatchModel};
use augur::numeric::{write_decimal, NumState};
use augur::relation::{lookup, note, CrossState, RowValue};
use augur::tables::build_stretch;

const FRESH_STATE: NumState = NumState { last: 0, delta: 0, hits: 0, seen: false };

fn follow(model: &mut MatchModel, text: &[u8], tab: &[i32]) {
    for n in 1..text.len() + 1 {
        model.update(&text[0..n], text[n - 1], tab);
    }
}

fn decimal_text(v: i64) -> Vec<u8> {
    let mut out = b"old".to_vec();
    write_decimal(&mut out, v);
    out
}

#[test]
fn context_hashes() {
    assert_eq!(hash_n(b"abcdef", 6, 4), 0xe483_682d);
    assert_eq!(hash_n(b"abcdef", 6, 6), 0xcc25_8b74);
    assert_eq!(hash_n(b"", 0, 0), 0x811c_9dc5);
    assert_eq!(hash_n(b"", 5, 0), 0x811c_9dc5);
    assert_eq!(hash_n(b"xxcdefyy", 6, 4), hash_n(b"abcdef", 6, 4));
    assert_eq!(hstep(0x811c_9dc5, b'a'), 0xe40c_292c);
}

#[test]
fn field_identities() {
    assert_eq!(csv_field(0), 0xc5c5_3737);
    assert_eq!(csv_field(1), 0x5bf2_4e86);
    assert_eq!(csv_field(2), 0xf9ab_c455);
    assert_eq!(sql_field(0, 0), 0x5917_9179);
    assert_eq!(sql_field(2, 1), 0xe092_a870);
}

#[test]
fn columns_differ() {
    for a in 0..200 {
        for b in 0..a {
            assert_ne!(csv_field(a), csv_field(b));
            assert_ne!(sql_field(a, 3), sql_field(b, 3));
        }
    }
}

#[test]
fn confidence_from_hits() {
    assert_eq!(conf_prob(0), 2048);
    assert_eq!(conf_prob(1), 3071);
    assert_eq!(conf_prob(3), 3583);
    assert_eq!(conf_prob(255), 4087);
    assert_eq!(conf_prob(10_000_000), 4094);
    assert_eq!(conf_prob(u32::MAX), 4094);
    for n in 1..3000 {
        assert!(conf_prob(n - 1) <= conf_prob(n));
    }
}

#[test]
fn shared_past_is_counted_backwards() {
    assert_eq!(backmatch(b"xabcyabc", 4, 8, 64), 3);
    assert_eq!(backmatch(b"xabcyabc", 4, 8, 2), 2);
    assert_eq!(backmatch(b"abcabc", 3, 6, 64), 3);
    assert_eq!(backmatch(b"abcabd", 3, 6, 64), 0);
    assert_eq!(backmatch(b"abc", 0, 3, 64), 0);
    assert_eq!(backmatch(&[7; 200], 100, 200, 64), 64);
    assert_eq!(backmatch(b"abcabc", 3, 6, usize::MAX), 3);
    assert_eq!(backmatch(b"", 5, 9, 0), 0);
}

#[test]
fn votes_for_the_expected_byte() {
    // 0101_1000
    let expected = [-9, 9, -9, 9, 9, -9, -9, -9];
    let mut c0 = 1;
    for bitpos in 0..8 {
        assert_eq!(vote(0x58, 9, c0, bitpos), expected[bitpos as usize]);
        c0 = c0 * 2 + ((0x58 >> (7 - bitpos)) & 1);
    }
    // a first bit of 1 is a surprise
    assert_eq!(vote(0x58, 9, 0b11, 1), 0);
    assert_eq!(vote(0x58, 9, 0b110, 2), 0);
}

#[test]
fn match_is_acquired_and_ridden() {
    let tab = build_stretch();
    let mut m = MatchModel::new(3);
    follow(&mut m, b"abcXYab", &tab);
    assert!(!m.on);
    assert_eq!(m.stretch_for(1, 0), 0);
    m.update(b"abcXYabc", b'c', &tab);
    assert!(m.on);
    assert_eq!((m.ptr, m.len, m.pb), (3, 3, b'X'));
    assert_eq!(m.mag, tab[3583]);
    assert_eq!(m.stretch_for(1, 0), -tab[3583]);
    assert_eq!(m.stretch_for(0b10, 1), tab[3583]);
    assert_eq!(m.stretch_for(0b11, 1), 0);
    m.update(b"abcXYabcX", b'X', &tab);
    assert_eq!((m.on, m.ptr, m.len, m.pb), (true, 4, 4, b'Y'));
    assert_eq!(m.mag, tab[conf_prob(4)]);
    m.update(b"abcXYabcXZ", b'Z', &tab);
    assert_eq!((m.on, m.len, m.mag), (false, 0, 0));
}

#[test]
fn longest_past_beats_the_latest() {
    let tab = build_stretch();
    let mut m = MatchModel::new(3);
    let text = b"1234abcP--zzabcQ--1234abc";
    follow(&mut m, text, &tab);
    assert!(m.on);
    assert_eq!((m.ptr, m.len, m.pb), (7, 7, b'P'));
}

#[test]
fn fresh_match_is_mildly_trusted() {
    let tab = build_stretch();
    let mut m = MatchModel::new(16);
    let mut text = b"a long phrase that comes back".to_vec();
    text.extend_from_slice(b" -- ");
    text.extend_from_slice(b"a long phrase th");
    follow(&mut m, &text, &tab);
    assert_eq!((m.on, m.ptr, m.len, m.pb), (true, 16, 8, b'a'));
}

#[test]
fn match_runs_out_at_the_end_of_the_text() {
    let tab = build_stretch();
    let mut m = MatchModel::new(2);
    follow(&mut m, b"aaaa", &tab);
    assert!(m.on);
    assert_eq!(m.pb, b'a');
    assert!(m.ptr < 4);
}

#[test]
fn decimal_texts() {
    assert_eq!(decimal_text(0), b"0");
    assert_eq!(decimal_text(7), b"7");
    assert_eq!(decimal_text(10), b"10");
    assert_eq!(decimal_text(1_700_000_399), b"1700000399");
    assert_eq!(decimal_text(-5), b"-5");
    assert_eq!(decimal_text(i64::MAX), b"9223372036854775807");
    assert_eq!(decimal_text(i64::MIN), b"-9223372036854775808");
}

#[test]
fn progressions_are_learned() {
    let first = FRESH_STATE.learn(100);
    assert_eq!((first.last, first.delta, first.hits, first.seen), (100, 0, 0, true));
    let second = first.learn(105);
    assert_eq!((second.last, second.delta, second.hits), (105, 5, 0));
    let third = second.learn(110);
    assert_eq!((third.last, third.delta, third.hits), (110, 5, 1));
    let fourth = third.learn(115);
    assert_eq!(fourth.hits, 2);
    let broken = fourth.learn(0);
    assert_eq!((broken.last, broken.delta, broken.hits), (0, -115, 1));
}

#[test]
fn hits_are_capped_and_steps_wrap() {
    let mut s = FRESH_STATE.learn(0);
    for _ in 0..400 {
        s = s.learn(0);
    }
    assert_eq!(s.hits, 255);
    let wrapped = FRESH_STATE.learn(i64::MAX).learn(i64::MIN);
    assert_eq!(wrapped.delta, 1);
}

#[test]
fn depths_differ() {
    for a in 0..40 {
        for b in 0..a {
            assert_ne!(sql_field(3, a), sql_field(3, b));
        }
    }
}

#[test]
fn latest_of_equal_pasts_wins() {
    let tab = build_stretch();
    let mut m = MatchModel::new(3);
    follow(&mut m, b"-abcP--+abcQ--*abc", &tab);
    assert_eq!((m.on, m.ptr, m.pb), (true, 11, b'Q'));
}

fn row_of(values: &[(u32, i64, Option<i64>)]) -> Vec<RowValue> {
    let mut row = Vec::new();
    for &(field, value, before) in values {
        note(&mut row, RowValue { field, value, before });
    }
    row
}

#[test]
fn row_keeps_the_latest_value_of_a_field() {
    let row = row_of(&[(1, 10, None), (2, 20, None), (1, 11, Some(10))]);
    assert_eq!(row.len(), 2);
    assert_eq!(lookup(&row, 1), Some(11));
    assert_eq!(lookup(&row, 2), Some(20));
    assert_eq!(lookup(&row, 3), None);
}

#[test]
fn row_forgets_the_oldest_value() {
    let mut row = Vec::new();
    for field in 0..40u32 {
        note(&mut row, RowValue { field, value: field as i64, before: None });
    }
    assert_eq!(row.len(), 32);
    assert_eq!(lookup(&row, 7), None);
    assert_eq!(lookup(&row, 8), Some(8));
    assert_eq!(lookup(&row, 39), Some(39));
}

#[test]
fn relations_are_learned() {
    let fresh = CrossState { source: 0, offset: 0, hits: 0, seen: false };
    // the first relation is to the latest value
    let row = row_of(&[(1, 100, None), (2, 7, None)]);
    let first = fresh.learn(9, FRESH_STATE, &row, 105);
    assert_eq!((first.source, first.offset, first.hits, first.seen), (2, 98, 0, true));
    let slot = FRESH_STATE.learn(105);
    // field 1 kept its distance of 5, field 2 did not
    let row = row_of(&[(1, 300, Some(100)), (2, 1, Some(7))]);
    assert_eq!(first.foresee(&row), Some(99));
    let second = first.learn(9, slot, &row, 305);
    assert_eq!((second.source, second.offset, second.hits), (1, 5, 1));
    let slot = slot.learn(305);
    let row = row_of(&[(1, -8, Some(300)), (2, 50, Some(1))]);
    assert_eq!(second.foresee(&row), Some(-3));
    let third = second.learn(9, slot, &row, -3);
    assert_eq!((third.source, third.offset, third.hits), (1, 5, 2));
    // one value out of line halves the hits, and the relation stays
    let slot = slot.learn(-3);
    let row = row_of(&[(1, 0, Some(-8)), (2, 51, Some(50))]);
    let fourth = third.learn(9, slot, &row, 1000);
    assert_eq!((fourth.source, fourth.offset, fourth.hits), (1, 5, 1));
    // without other values there is nothing to learn or to foresee
    let alone = fresh.learn(9, FRESH_STATE, &Vec::new(), 5);
    assert!(!alone.seen);
    assert_eq!(fourth.foresee(&Vec::new()), None);
    assert_eq!(fresh.foresee(&row), None);
}
