//! The arithmetic coder.

use augur::coder::{Decoder, Encoder};

const CODED: [(u32, u32); 8] =
    [(1, 2048), (0, 2048), (1, 4095), (1, 1), (0, 4095), (0, 0), (1, 100), (0, 3000)];

#[test]
fn nothing_coded() {
    assert_eq!(Encoder::new().finish(), vec![0, 0, 0, 0]);
}

#[test]
fn coded_bits_exactly() {
    let mut enc = Encoder::new();
    for (bit, p) in CODED {
        enc.encode(bit, p);
    }
    assert_eq!(enc.finish(), vec![0x40, 0x03, 0xff, 0x81, 0x28, 0xe5, 0xb1, 0x00]);
}

#[test]
fn coded_bits_read_back() {
    let mut enc = Encoder::new();
    for (bit, p) in CODED {
        enc.encode(bit, p);
    }
    let stream = enc.finish();
    let mut dec = Decoder::new(&stream);
    for (bit, p) in CODED {
        assert_eq!(dec.decode(p), bit);
    }
}

#[test]
fn every_probability_reads_back() {
    let mut enc = Encoder::new();
    for p in 0..4096u32 {
        enc.encode((p * 7 / 3) & 1, p);
    }
    let stream = enc.finish();
    let mut dec = Decoder::new(&stream);
    for p in 0..4096u32 {
        assert_eq!(dec.decode(p), (p * 7 / 3) & 1);
    }
}

#[test]
fn likely_bits_are_cheap() {
    let mut enc = Encoder::new();
    for _ in 0..8000 {
        enc.encode(1, 4095);
    }
    let stream = enc.finish();
    assert!(stream.len() <= 8);
    let mut dec = Decoder::new(&stream);
    for _ in 0..8000 {
        assert_eq!(dec.decode(4095), 1);
    }
}

#[test]
fn zeros_follow_the_stream() {
    let bytes = [1, 2, 3, 4, 5];
    let mut dec = Decoder::new(&bytes);
    assert_eq!(dec.x, 0x0102_0304);
    assert_eq!(dec.next_byte(), 5);
    assert_eq!(dec.next_byte(), 0);
    assert_eq!(dec.next_byte(), 0);
}
