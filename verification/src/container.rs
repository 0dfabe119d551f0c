//! Compress and decompress: the container around a coded stream.
//!
//! Layout: `AUGR` | version (1) | mode (1) | original length (8, little-endian) |
//! stream.

use vstd::prelude::*;
use vstd::string::StringExecFns;
use crate::codec;
use crate::economy;
use crate::mode;
use crate::mode::Mode;
use crate::numeric;

verus! {

/// `AUGR`.
pub const MAGIC: [u8; 4] = [0x41, 0x55, 0x47, 0x52];

pub const VERSION: u8 = 1;

pub const HEADER_LEN: usize = 14;

/// The eight bytes of a length, least significant first.
pub open spec fn le_bytes(n: u64) -> Seq<u8> {
    seq![
        (n % 256) as u8,
        (n / 0x100 % 256) as u8,
        (n / 0x1_0000 % 256) as u8,
        (n / 0x100_0000 % 256) as u8,
        (n / 0x1_0000_0000 % 256) as u8,
        (n / 0x100_0000_0000 % 256) as u8,
        (n / 0x1_0000_0000_0000 % 256) as u8,
        (n / 0x100_0000_0000_0000 % 256) as u8,
    ]
}

/// The number that eight bytes stand for, least significant first.
pub open spec fn le_value(s: Seq<u8>) -> u64 {
    (s[0] + s[1] * 0x100 + s[2] * 0x1_0000 + s[3] * 0x100_0000 + s[4] * 0x1_0000_0000 + s[5]
        * 0x100_0000_0000 + s[6] * 0x1_0000_0000_0000 + s[7] * 0x100_0000_0000_0000) as u64
}

/// A length survives its eight bytes.
pub proof fn law_length_round_trip(n: u64)
    ensures
        le_value(le_bytes(n)) == n,
        le_bytes(n).len() == 8,
{
    assert(n % 256 + (n / 0x100 % 256) * 0x100 + (n / 0x1_0000 % 256) * 0x1_0000 + (n / 0x100_0000
        % 256) * 0x100_0000 + (n / 0x1_0000_0000 % 256) * 0x1_0000_0000 + (n / 0x100_0000_0000 % 256)
        * 0x100_0000_0000 + (n / 0x1_0000_0000_0000 % 256) * 0x1_0000_0000_0000 + (n
        / 0x100_0000_0000_0000 % 256) * 0x100_0000_0000_0000 == n) by (bit_vector);
}

/// What precedes the stream in a container.
pub open spec fn header(mode: Mode, len: u64) -> Seq<u8> {
    MAGIC@ + seq![VERSION, mode.code()] + le_bytes(len)
}

/// The container that `data` is compressed into.
pub open spec fn packed(data: Seq<u8>) -> Seq<u8> {
    let mode = mode::format_of(mode::sample_of(data));
    header(mode, data.len() as u64) + codec::encoded(data, mode)
}

/// The container starts like one.
pub open spec fn well_marked(container: Seq<u8>) -> bool {
    container.len() >= HEADER_LEN && container.take(4) == MAGIC@
}

/// The mode that a container names.
pub open spec fn named_mode(container: Seq<u8>) -> Mode {
    Mode::of_code(container[5])
}

/// The length that a container names.
pub open spec fn named_len(container: Seq<u8>) -> u64 {
    le_value(container.subrange(6, 14))
}

/// The decimal digits of a number as characters.
pub open spec fn decimal_chars(n: nat) -> Seq<char> {
    numeric::decimal(n).map_values(|b: u8| b as char)
}

/// What a container opens to: an error where the mark or the version is not the
/// right one, and otherwise as many bytes of its stream as it names.
pub open spec fn unpacked(container: Seq<u8>) -> Result<Seq<u8>, Seq<char>> {
    if !well_marked(container) {
        Err("not an augur file (bad magic)"@)
    } else if container[4] != VERSION {
        Err("unsupported augur version "@ + decimal_chars(container[4] as nat))
    } else {
        Ok(
            codec::decoded(
                container.skip(HEADER_LEN as int),
                named_mode(container),
                named_len(container) as usize as nat,
            ),
        )
    }
}

/// A container names the format and the length of its data, and holds the stream
/// that was coded in that format: the decoder sets up the parser that the encoder
/// used.
pub proof fn law_container_names_its_contents(data: Seq<u8>)
    requires
        data.len() <= u64::MAX,
    ensures
        well_marked(packed(data)),
        packed(data)[4] == VERSION,
        named_mode(packed(data)) == mode::format_of(mode::sample_of(data)),
        named_len(packed(data)) == data.len(),
        packed(data).skip(HEADER_LEN as int) == codec::encoded(
            data,
            mode::format_of(mode::sample_of(data)),
        ),
{
    let mode = mode::format_of(mode::sample_of(data));
    let len = data.len() as u64;
    let c = packed(data);
    law_length_round_trip(len);
    mode::law_mode_code_round_trip(mode);
    assert(c.take(4) =~= MAGIC@);
    assert(c[5] == mode.code());
    assert(c.subrange(6, 14) =~= le_bytes(len));
    assert(c.skip(HEADER_LEN as int) =~= codec::encoded(data, mode));
}

/// Compression is lossless: decompressing what `data` was compressed into gives
/// `data`, for any data that memory can hold.
pub proof fn law_lossless(data: Seq<u8>)
    requires
        data.len() <= usize::MAX,
    ensures
        unpacked(packed(data)) == Ok::<Seq<u8>, Seq<char>>(data),
{
    law_container_names_its_contents(data);
    codec::law_stream_lossless(data, mode::format_of(mode::sample_of(data)));
}

/// The number that the bytes of `s` from `at` on stand for, least significant first.
pub open spec fn little_endian(s: Seq<u8>, at: int) -> int {
    s[at] + 0x100 * s[at + 1] + 0x1_0000 * s[at + 2] + 0x100_0000 * s[at + 3] + 0x1_0000_0000 * s[at
        + 4] + 0x100_0000_0000 * s[at + 5] + 0x1_0000_0000_0000 * s[at + 6] + 0x100_0000_0000_0000
        * s[at + 7]
}

/// `AUGR`, and room for a header.
pub open spec fn begins_like_one(s: Seq<u8>) -> bool {
    s.len() >= 14 && s[0] == 0x41 && s[1] == 0x55 && s[2] == 0x47 && s[3] == 0x52
}

/// The bytes of a container: the mark, the version, the byte of the format, the length of
/// the data, and the stream.
pub proof fn law_container_bytes(data: Seq<u8>)
    requires
        data.len() <= u64::MAX,
    ensures
        ({
            let c = packed(data);
            let mode = mode::format_of(mode::sample_of(data));
            &&& begins_like_one(c)
            &&& c[4] == 1
            &&& c[5] == mode.code()
            &&& little_endian(c, 6) == data.len()
            &&& c.skip(14) == codec::encoded(data, mode)
        }),
{
    law_container_names_its_contents(data);
    let c = packed(data);
    let mode = mode::format_of(mode::sample_of(data));
    assert(c.take(4) =~= MAGIC@);
    assert(c[0] == c.take(4)[0] && c[1] == c.take(4)[1] && c[2] == c.take(4)[2] && c[3] == c.take(
        4,
    )[3]);
    assert(c[5] == mode.code());
    let t = c.subrange(6, 14);
    assert(t[0] == c[6] && t[1] == c[7] && t[2] == c[8] && t[3] == c[9] && t[4] == c[10] && t[5]
        == c[11] && t[6] == c[12] && t[7] == c[13]);
}

/// What is opened and what is refused. Whatever does not begin like a container is
/// refused as that, and one of another version with its number; anything else opens to as
/// many bytes as it names, which are those that its stream stands for in its format.
pub proof fn law_what_is_refused(c: Seq<u8>)
    ensures
        !begins_like_one(c) ==> unpacked(c) == Err::<Seq<u8>, Seq<char>>(
            "not an augur file (bad magic)"@,
        ),
        begins_like_one(c) && c[4] != 1 ==> unpacked(c) == Err::<Seq<u8>, Seq<char>>(
            "unsupported augur version "@ + numeric::decimal(c[4] as nat).map_values(
                |b: u8| b as char,
            ),
        ),
        begins_like_one(c) && c[4] == 1 && little_endian(c, 6) <= usize::MAX ==> {
            &&& unpacked(c) is Ok
            &&& unpacked(c)->Ok_0.len() == little_endian(c, 6)
            &&& unpacked(c)->Ok_0 == codec::decoded(
                c.skip(14),
                Mode::of_code(c[5]),
                little_endian(c, 6) as nat,
            )
        },
{
    if c.len() >= 14 {
        let m = c.take(4);
        assert(m[0] == c[0] && m[1] == c[1] && m[2] == c[2] && m[3] == c[3]);
        if begins_like_one(c) {
            assert(m =~= MAGIC@);
        }
        let t = c.subrange(6, 14);
        assert(t[0] == c[6] && t[1] == c[7] && t[2] == c[8] && t[3] == c[9] && t[4] == c[10] && t[5]
            == c[11] && t[6] == c[12] && t[7] == c[13]);
        if begins_like_one(c) && c[4] == 1 && little_endian(c, 6) <= usize::MAX {
            economy::law_decoded_as_foretold(
                c.skip(14),
                Mode::of_code(c[5]),
                little_endian(c, 6) as nat,
            );
        }
    }
}

/// Bytes behind a container have no influence.
pub proof fn law_bytes_behind_are_ignored(data: Seq<u8>, more: Seq<u8>)
    requires
        data.len() <= usize::MAX,
    ensures
        unpacked(packed(data) + more) == Ok::<Seq<u8>, Seq<char>>(data),
{
    let c = packed(data);
    let d = c + more;
    let mode = mode::format_of(mode::sample_of(data));
    law_container_names_its_contents(data);
    assert(d.len() >= HEADER_LEN);
    assert(d.take(4) =~= c.take(4));
    assert(d[4] == c[4] && d[5] == c[5]);
    assert(d.subrange(6, 14) =~= c.subrange(6, 14));
    assert(named_mode(d) == mode);
    assert(named_len(d) as usize as nat == data.len());
    assert(d.skip(HEADER_LEN as int) =~= codec::encoded(data, mode) + more);
    assert(unpacked(d) == Ok::<Seq<u8>, Seq<char>>(
        codec::decoded(codec::encoded(data, mode) + more, mode, data.len()),
    ));
    codec::law_stream_ends_itself(data, mode, more);
}

/// Compress `data`, with the format sniffed from its prefix.
pub fn compress(data: &[u8]) -> (out: Vec<u8>)
    ensures
        out@ == packed(data@),
        unpacked(out@) == Ok::<Seq<u8>, Seq<char>>(data@),
{
    let m = mode::sniff(data);
    let stream = codec::encode_stream(data, m);
    let len: u64 = data.len() as u64;
    let mut out: Vec<u8> = Vec::with_capacity(stream.len().saturating_add(HEADER_LEN));
    out.push(MAGIC[0]);
    out.push(MAGIC[1]);
    out.push(MAGIC[2]);
    out.push(MAGIC[3]);
    out.push(VERSION);
    out.push(m.to_byte());
    push_le(&mut out, len);
    assert(out@ =~= header(m, len));
    out.extend_from_slice(stream.as_slice());
    assert(out@ =~= packed(data@));
    proof {
        law_lossless(data@);
    }
    out
}

/// Append the eight bytes of `n`, least significant first.
fn push_le(out: &mut Vec<u8>, n: u64)
    ensures
        final(out)@ == old(out)@ + le_bytes(n),
{
    out.push((n % 256) as u8);
    out.push((n / 0x100 % 256) as u8);
    out.push((n / 0x1_0000 % 256) as u8);
    out.push((n / 0x100_0000 % 256) as u8);
    out.push((n / 0x1_0000_0000 % 256) as u8);
    out.push((n / 0x100_0000_0000 % 256) as u8);
    out.push((n / 0x1_0000_0000_0000 % 256) as u8);
    out.push((n / 0x100_0000_0000_0000 % 256) as u8);
    assert(out@ =~= old(out)@ + le_bytes(n));
}

/// The number that eight bytes from `at` on stand for.
fn read_le(s: &[u8], at: usize) -> (n: u64)
    requires
        at + 8 <= s.len(),
    ensures
        n == le_value(s@.subrange(at as int, at + 8)),
{
    s[at] as u64 + s[at + 1] as u64 * 0x100 + s[at + 2] as u64 * 0x1_0000 + s[at + 3] as u64
        * 0x100_0000 + s[at + 4] as u64 * 0x1_0000_0000 + s[at + 5] as u64 * 0x100_0000_0000 + s[at
        + 6] as u64 * 0x1_0000_0000_0000 + s[at + 7] as u64 * 0x100_0000_0000_0000
}

/// The text of a decimal digit.
fn digit_text(d: u8) -> (s: &'static str)
    requires
        d < 10,
    ensures
        s@ == decimal_chars(d as nat),
{
    proof {
        reveal_strlit("0");
        reveal_strlit("1");
        reveal_strlit("2");
        reveal_strlit("3");
        reveal_strlit("4");
        reveal_strlit("5");
        reveal_strlit("6");
        reveal_strlit("7");
        reveal_strlit("8");
        reveal_strlit("9");
    }
    let s: &'static str = match d {
        0 => "0",
        1 => "1",
        2 => "2",
        3 => "3",
        4 => "4",
        5 => "5",
        6 => "6",
        7 => "7",
        8 => "8",
        _ => "9",
    };
    assert(s@ =~= decimal_chars(d as nat));
    s
}

/// Append the decimal digits of `n`.
fn append_decimal(s: &mut String, n: u8)
    ensures
        final(s)@ == old(s)@ + decimal_chars(n as nat),
    decreases n,
{
    if n >= 10 {
        append_decimal(s, n / 10);
        s.append(digit_text(n % 10));
        assert(decimal_chars(n as nat) =~= decimal_chars((n / 10) as nat) + decimal_chars(
            (n % 10) as nat,
        ));
        assert(s@ =~= old(s)@ + decimal_chars(n as nat));
    } else {
        s.append(digit_text(n));
    }
}

/// Whether the container starts with the mark and has room for a header.
fn is_marked(container: &[u8]) -> (r: bool)
    ensures
        r == well_marked(container@),
{
    if container.len() < HEADER_LEN {
        return false;
    }
    let r: bool = container[0] == MAGIC[0] && container[1] == MAGIC[1] && container[2] == MAGIC[2]
        && container[3] == MAGIC[3];
    proof {
        let t = container@.take(4);
        if r {
            assert(t =~= MAGIC@);
        } else if t == MAGIC@ {
            assert(t[0] == container@[0] && t[1] == container@[1] && t[2] == container@[2] && t[3]
                == container@[3]);
        }
    }
    r
}

/// Restore what was compressed into `container`.
pub fn decompress(container: &[u8]) -> (r: Result<Vec<u8>, String>)
    ensures
        match r {
            Ok(data) => unpacked(container@) == Ok::<Seq<u8>, Seq<char>>(data@),
            Err(e) => unpacked(container@) == Err::<Seq<u8>, Seq<char>>(e@),
        },
{
    if !is_marked(container) {
        return Err("not an augur file (bad magic)".to_string());
    }
    if container[4] != VERSION {
        let mut e: String = "unsupported augur version ".to_string();
        append_decimal(&mut e, container[4]);
        return Err(e);
    }
    let m = Mode::from_byte(container[5]);
    let orig_len: usize = read_le(container, 6) as usize;
    let stream: &[u8] = &container[HEADER_LEN..container.len()];
    assert(stream@ =~= container@.skip(HEADER_LEN as int));
    Ok(codec::decode_stream(stream, m, orig_len))
}

} // verus!
