//! The container, byte for byte.

use augur::codec::{decode_stream, encode_stream};
use augur::coder::{Decoder, Encoder};
use augur::container::{compress, decompress, HEADER_LEN, MAGIC, VERSION};
use augur::mode::Mode;
use augur::predictor::Predictor;

fn unhex(s: &str) -> Vec<u8> {
    (0..s.len() / 2).map(|i| u8::from_str_radix(&s[2 * i..2 * i + 2], 16).unwrap()).collect()
}

// 64-bit FNV-1a
fn checksum(data: &[u8]) -> u64 {
    data.iter().fold(0xcbf2_9ce4_8422_2325u64, |h, &b| {
        (h ^ b as u64).wrapping_mul(0x0000_0100_0000_01b3)
    })
}

fn packs_to(data: &[u8], container: &str) {
    let packed = compress(data);
    assert_eq!(packed, unhex(container));
    assert_eq!(decompress(&packed), Ok(data.to_vec()));
}

fn packs_with(data: &[u8], mode: Mode, len: usize, sum: u64) {
    let packed = compress(data);
    assert_eq!(Mode::from_byte(packed[5]), mode);
    assert_eq!(packed.len(), len);
    assert_eq!(checksum(&packed), sum);
    assert_eq!(decompress(&packed), Ok(data.to_vec()));
}

fn noise(n: usize) -> Vec<u8> {
    let mut x: u64 = 0x2545_F491_4F6C_DD1D;
    let mut out = Vec::new();
    for _ in 0..n {
        x ^= x << 13;
        x ^= x >> 7;
        x ^= x << 17;
        out.push((x & 0xff) as u8);
    }
    out
}

#[test]
fn empty_container_bytes() {
    packs_to(b"", "415547520100000000000000000000000000");
}

#[test]
fn generic_container_bytes() {
    packs_to(
        b"the quick brown fox the quick brown fox 1 2 3 4 5 6 7 8 9 10 11 12 13",
        "41554752010045000000000000008b964e822f56622cc59b0baa6e1252a68b4b669277f751d1e094295333ac\
122b910215ace30b5916b786ca9b396043d00147e023ed1bc2601926d79b9bda",
    );
}

#[test]
fn json_container_bytes() {
    packs_to(
        b"{\"id\":1000,\"n\":-5,\"a\":[1,2,3]}\n{\"id\":1001,\"n\":-4,\"a\":[4,5,6]}\n{\"id\":1002,\"n\":-3.5,\"q\":\"x\\\"y\"}\n",
        "4155475201015e0000000000000084dd9acda9beeed3df862adf6774a53ffdac132e26bfa711df7cb08066f2\
8f54aed8a10e788d1ae5e780a8bea644c8dc396f480dc88c4c11971b650e5247aea5fc6ffbcae695f004060df770b81b\
4fda19fd51143400",
    );
}

#[test]
fn csv_container_bytes() {
    packs_to(
        b"id,v,t\n1,10,\"a,b\"\n2,20,c\n3,30,d\n4,40,-7\n",
        "4155475201022800000000000000969aa135634850492d41b7244453fb1d4ed903c312a6190aa2ba6d090e33\
75c3492b3878cfbf534c3b",
    );
}

#[test]
fn sql_container_bytes() {
    packs_to(
        b"INSERT INTO t VALUES (1,'it''s',(2,3)),(2,'a\\'b',(4,6)),(3,'c',(6,9)));",
        "4155475201034700000000000000b6b0171449b57e0ad8f5392abb006a7a42496f0865347cff8e70a3909b5a\
ebd18d3e12944c130c511f7b8f151d7a347189075e928366b5bcbffa464b8e50eed6f9dc4ace19",
    );
}

#[test]
fn xml_container_bytes() {
    packs_to(
        b"<?xml version='1.0'?><a b=\"1\"><c>x</c><d/></a><a b=\"2\"><c>y</c><d/></a>",
        "4155475201044700000000000000c3bd487bab9dedf08a3fba0da11f6087b7cc4a4936b2f38b1ff262cd30fb\
e5c5c9e12372d9416e8d3cbea7601b11e207678a61e42116b9901fedc810259f2c5d150fe800",
    );
}

#[test]
fn malformed_json_container_bytes() {
    packs_to(
        b"{{{not valid,,,]]] \"unterminated\n\\\\\x00\x01\xff garbage",
        "4155475201012e00000000000000848124d1d4a63c8b53c1cbbc31bb7953b0f8fb8d2d99c305070505675f45\
9327c13b6de12667fdb900772b6f56691449",
    );
}

#[test]
fn quoted_csv_container_bytes() {
    packs_to(
        b"\"a\",\"b,c\",\"d\"\"e\"\n1,2,3\n,,\n",
        "4155475201021a00000000000000dd9ac55bf16c0224863f29d9366c9a96654437474f9c23ffb017139b00",
    );
}

#[test]
fn sequential_ids_collapse() {
    let mut s = String::new();
    for i in 0..400 {
        s.push_str(&format!("{{\"id\":{},\"ts\":{},\"v\":\"x\"}}\n", 1000 + i, 1_700_000_000 + i));
    }
    assert_eq!(s.len(), 14400);
    packs_with(s.as_bytes(), Mode::Json, 520, 0x9260_8845_0ac9_90ab);
}

#[test]
fn csv_table_checksum() {
    let mut s = String::from("a,b,c\n");
    for i in 0..400 {
        s.push_str(&format!("{},{},tag{}\n", i, i * 2, i % 7));
    }
    packs_with(s.as_bytes(), Mode::Csv, 526, 0x7e16_8eaf_f01f_156d);
}

#[test]
fn sql_table_checksum() {
    let mut s = String::from("CREATE TABLE t (id int, ts int, name varchar(64));\n");
    for batch in 0..16 {
        s.push_str("INSERT INTO `t` VALUES ");
        for i in 0..25 {
            let id = batch * 25 + i;
            s.push_str(&format!("({},{},'it''s name{}')", 1000 + id, 1_700_000_000 + id, id % 9));
            if i < 24 {
                s.push(',');
            }
        }
        s.push_str(";\n");
    }
    packs_with(s.as_bytes(), Mode::Sql, 855, 0x0efa_c8b0_a873_fe3a);
}

#[test]
fn xml_catalog_checksum() {
    let mut s = String::from("<?xml version=\"1.0\"?>\n<catalog>\n");
    for i in 0..200 {
        s.push_str(&format!(
            "  <item id=\"{}\"><name>thing {}</name><price>{}</price><tag/></item>\n",
            i,
            i % 50,
            i * 3
        ));
    }
    s.push_str("</catalog>\n");
    packs_with(s.as_bytes(), Mode::Xml, 1079, 0xb25f_041e_7466_1825);
}

#[test]
fn noise_costs_a_few_bytes() {
    let data = noise(4000);
    packs_with(&data, Mode::Generic, 4020, 0xca96_a6ef_e8f6_c5df);
}

#[test]
fn one_long_run_checksum() {
    packs_with(&vec![0x7e; 5000], Mode::Generic, 31, 0xbb6b_ff37_190c_6dca);
}

#[test]
fn parentheses_beyond_the_limit() {
    let mut s = b"INSERT INTO t VALUES ".to_vec();
    s.extend_from_slice(&[b'('; 40]);
    s.extend_from_slice(b"1,2");
    s.extend_from_slice(&[b')'; 45]);
    s.extend_from_slice(b",3,4;");
    packs_with(&s, Mode::Sql, 66, 0x3c2f_d574_ec0b_779f);
}

#[test]
fn elements_beyond_the_limit() {
    let mut s = String::from("<?xml?>");
    for i in 0..80 {
        s.push_str(&format!("<t{i}>"));
    }
    s.push('x');
    for i in 0..90 {
        s.push_str(&format!("</t{i}>"));
    }
    packs_with(s.as_bytes(), Mode::Xml, 370, 0x39d8_5374_8ebc_b4d4);
}

#[test]
fn long_and_scientific_numbers() {
    let mut s = String::new();
    for i in 0..60i64 {
        s.push_str(&format!(
            "{{\"x\":{},\"y\":{},\"z\":{}e3}}\n",
            -1000 + i,
            9_000_000_000_000_000_000 - i,
            i
        ));
    }
    packs_with(s.as_bytes(), Mode::Json, 502, 0x8736_55b5_8830_a8b9);
}

#[test]
fn header_fields() {
    let data = vec![b'z'; 0x1_0203];
    let packed = compress(&data);
    assert_eq!(&packed[0..4], b"AUGR");
    assert_eq!(packed[0..4], MAGIC);
    assert_eq!(packed[4], VERSION);
    assert_eq!(packed[5], Mode::Generic.to_byte());
    assert_eq!(packed[6..14], [0x03, 0x02, 0x01, 0, 0, 0, 0, 0]);
    assert_eq!(packed[HEADER_LEN..], encode_stream(&data, Mode::Generic));
    assert_eq!(decompress(&packed), Ok(data));
}

#[test]
fn bad_magic_is_named() {
    let bad = Err("not an augur file (bad magic)".to_string());
    assert_eq!(decompress(b""), bad);
    assert_eq!(decompress(b"AUGR\x01\x00\x00\x00\x00\x00\x00\x00\x00"), bad);
    assert_eq!(decompress(b"AUGS\x01\x00\x00\x00\x00\x00\x00\x00\x00\x00"), bad);
    assert_eq!(decompress(b"not an augur file at all"), bad);
}

#[test]
fn wrong_version_is_named() {
    for (version, text) in [(0u8, "0"), (2, "2"), (99, "99"), (255, "255")] {
        let mut bad = MAGIC.to_vec();
        bad.push(version);
        bad.extend_from_slice(&[1; 9]);
        assert_eq!(decompress(&bad), Err(format!("unsupported augur version {text}")));
    }
}

#[test]
fn unknown_mode_is_generic() {
    let mut packed = compress(b"plain text");
    assert_eq!(packed[5], 0);
    packed[5] = 200;
    assert_eq!(decompress(&packed), Ok(b"plain text".to_vec()));
}

#[test]
fn header_alone_opens_to_nothing() {
    assert_eq!(decompress(b"AUGR\x01\x00\x00\x00\x00\x00\x00\x00\x00\x00"), Ok(Vec::new()));
}

#[test]
fn any_stream_decodes_to_something() {
    assert_eq!(
        decode_stream(&[0xde, 0xad, 0xbe, 0xef, 0x01, 0x02, 0x03], Mode::Json, 12),
        unhex("214ef8b3fd03e4adec26ffff")
    );
    assert_eq!(decode_stream(&[], Mode::Generic, 6), vec![0xff; 6]);
    assert_eq!(decode_stream(&[0xff; 4], Mode::Xml, 5), unhex("000000003c"));
}

#[test]
fn truncated_stream_decodes_to_its_start() {
    let data = b"hello hello hello hello";
    let stream = encode_stream(data, Mode::Generic);
    let back = decode_stream(&stream[0..stream.len() - 6], Mode::Generic, data.len());
    assert_eq!(&back[..], b"hello hello hello iy\xe9\xd3\xff");
}

#[test]
fn every_mode_is_lossless_on_any_data() {
    let text = b"{\"a\":[1,-2,3.5e7],\"b\":\"x\\\"\"}\n<p q='1'>t</p>,(1,'it''s'),\"\"\n\x00\xff--9";
    for mode in [Mode::Generic, Mode::Json, Mode::Csv, Mode::Sql, Mode::Xml] {
        for end in 0..text.len() + 1 {
            if end % 16 == 0 || end == text.len() {
                let stream = encode_stream(&text[0..end], mode);
                assert_eq!(decode_stream(&stream, mode, end), &text[0..end]);
            }
        }
    }
}

#[test]
fn both_sides_predict_alike() {
    let data = b"{\"id\":7,\"t\":\"a\"}\n{\"id\":8,\"t\":\"a\"}\n{\"id\":9,\"t\":\"b\"}\n";
    let mut ours = Predictor::new(Mode::Json);
    let mut enc = Encoder::new();
    let mut said = Vec::new();
    for &byte in data {
        for i in (0..8).rev() {
            let p = ours.predict();
            said.push(p);
            enc.encode(((byte >> i) & 1) as u32, p);
            ours.update(((byte >> i) & 1) as u32);
        }
    }
    let stream = enc.finish();
    assert_eq!(stream, encode_stream(data, Mode::Json));
    let mut theirs = Predictor::new(Mode::Json);
    let mut dec = Decoder::new(&stream);
    for expected in said {
        let p = theirs.predict();
        assert_eq!(p, expected);
        assert!(1 <= p && p <= 4095);
        let bit = dec.decode(p);
        theirs.update(bit);
    }
    assert_eq!(theirs.buf, data);
    assert_eq!(theirs.w, ours.w);
    assert_eq!(theirs.t, ours.t);
    assert_eq!(theirs.ctxh, ours.ctxh);
}

fn next_draw(x: &mut u64) -> u64 {
    *x = (*x * 1_103_515_245 + 12_345) & 0x7fff_ffff;
    *x
}

#[test]
fn copied_column_checksum() {
    let mut x = 12_345;
    let mut s = String::from("a,b,c\n");
    for _ in 0..300 {
        let v = next_draw(&mut x) % 100_000;
        s.push_str(&format!("{v},{v},t\n"));
    }
    packs_with(s.as_bytes(), Mode::Csv, 995, 0xc9b0_58e5_2840_2fc1);
}

#[test]
fn offset_column_checksum() {
    let mut x = 12_345;
    let mut s = String::from("seq,v,id\n");
    for _ in 0..300 {
        let seq = next_draw(&mut x) % 100_000;
        let v = next_draw(&mut x) % 1000;
        s.push_str(&format!("{seq},{v},{}\n", seq + 100_000));
    }
    packs_with(s.as_bytes(), Mode::Csv, 1328, 0xabbb_50b1_a7f3_3f71);
}

#[test]
fn copied_json_field_checksum() {
    let mut x = 12_345;
    let mut s = String::new();
    for _ in 0..200 {
        let v = next_draw(&mut x);
        s.push_str(&format!("{{\"firstSeen\":{v},\"k\":\"a\",\"lastSeen\":{v}}}\n"));
    }
    packs_with(s.as_bytes(), Mode::Json, 1546, 0xb74e_ab1d_fd6c_f692);
}

#[test]
fn nested_sql_offset_checksum() {
    let mut x = 12_345;
    let mut s = String::from("INSERT INTO t VALUES ");
    for _ in 0..200 {
        let v = (next_draw(&mut x) % 100_000) as i64;
        let w = next_draw(&mut x) % 7;
        s.push_str(&format!("({v},'n',({w},{})),", v - 5));
    }
    packs_with(s.as_bytes(), Mode::Sql, 944, 0x71c2_1791_2067_d750);
}

#[test]
fn bytes_behind_the_stream_are_ignored() {
    let data = b"some text, and some more text";
    let mut stream = encode_stream(data, Mode::Generic);
    stream.extend_from_slice(b"\xff\x00junk");
    assert_eq!(decode_stream(&stream, Mode::Generic, data.len()), data);
    let mut packed = compress(data);
    packed.extend_from_slice(b"\xff\x00junk");
    assert_eq!(decompress(&packed), Ok(data.to_vec()));
}

#[test]
fn short_stream_reads_as_if_zeros_followed() {
    let stream = encode_stream(b"some text, and some more text", Mode::Generic);
    let short = &stream[0..stream.len() - 7];
    let mut padded = short.to_vec();
    padded.extend_from_slice(&[0; 50]);
    assert_eq!(
        decode_stream(short, Mode::Generic, 40),
        decode_stream(&padded, Mode::Generic, 40)
    );
}
