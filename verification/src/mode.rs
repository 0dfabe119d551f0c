//! The data formats, and how they are told apart.

use vstd::prelude::*;
use crate::ascii;
use crate::ascii::{COMMA, LESS, LF, OPEN_BRACE, OPEN_BRACKET};

verus! {

/// The format whose parser feeds the structure models.
#[derive(Clone, Copy, Debug, PartialEq, Eq, Structural)]
pub enum Mode {
    Generic,
    Json,
    Csv,
    Sql,
    Xml,
}

impl Mode {
    /// The byte that stands for the mode in a container header.
    pub open spec fn code(self) -> u8 {
        match self {
            Mode::Generic => 0,
            Mode::Json => 1,
            Mode::Csv => 2,
            Mode::Sql => 3,
            Mode::Xml => 4,
        }
    }

    /// The mode that a header byte stands for; an unknown byte means generic.
    pub open spec fn of_code(b: u8) -> Mode {
        if b == 1 {
            Mode::Json
        } else if b == 2 {
            Mode::Csv
        } else if b == 3 {
            Mode::Sql
        } else if b == 4 {
            Mode::Xml
        } else {
            Mode::Generic
        }
    }

    pub fn to_byte(self) -> (b: u8)
        ensures
            b == self.code(),
    {
        match self {
            Mode::Generic => 0,
            Mode::Json => 1,
            Mode::Csv => 2,
            Mode::Sql => 3,
            Mode::Xml => 4,
        }
    }

    pub fn from_byte(b: u8) -> (m: Mode)
        ensures
            m == Mode::of_code(b),
    {
        match b {
            1 => Mode::Json,
            2 => Mode::Csv,
            3 => Mode::Sql,
            4 => Mode::Xml,
            _ => Mode::Generic,
        }
    }
}

/// Every mode survives the header byte.
pub proof fn law_mode_code_round_trip(m: Mode)
    ensures
        Mode::of_code(m.code()) == m,
{
}

/// `needle` stands in `hay` at position `i`.
pub open spec fn occurs_at(hay: Seq<u8>, needle: Seq<u8>, i: int) -> bool {
    0 <= i && i + needle.len() <= hay.len() && hay.subrange(i, i + needle.len()) == needle
}

/// `needle` stands somewhere in `hay`.
pub open spec fn occurs(hay: Seq<u8>, needle: Seq<u8>) -> bool {
    exists|i: int| occurs_at(hay, needle, i)
}

/// Whether `needle` stands in `hay` at position `at`.
fn matches_at(hay: &[u8], needle: &[u8], at: usize) -> (r: bool)
    requires
        at + needle@.len() <= hay@.len(),
    ensures
        r == occurs_at(hay@, needle@, at as int),
{
    let len: usize = hay.len();
    let mut j: usize = 0;
    while j < needle.len()
        invariant
            at + needle@.len() <= hay@.len() == len,
            j <= needle@.len(),
            forall|k: int| 0 <= k < j ==> hay@[at + k] == #[trigger] needle@[k],
        decreases needle@.len() - j,
    {
        if hay[at + j] != needle[j] {
            assert(hay@.subrange(at as int, at + needle@.len())[j as int] != needle@[j as int]);
            return false;
        }
        j = j + 1;
    }
    assert(hay@.subrange(at as int, at + needle@.len()) =~= needle@);
    true
}

/// Whether `needle` stands somewhere in `hay`.
pub fn contains(hay: &[u8], needle: &[u8]) -> (r: bool)
    requires
        needle@.len() > 0,
    ensures
        r == occurs(hay@, needle@),
{
    if needle.len() > hay.len() {
        return false;
    }
    let len: usize = hay.len();
    let last: usize = len - needle.len();
    let mut i: usize = 0;
    while i <= last
        invariant
            last == hay@.len() - needle@.len(),
            hay@.len() == len,
            needle@.len() > 0,
            i <= last + 1,
            forall|k: int| 0 <= k < i ==> !occurs_at(hay@, needle@, k),
        decreases last + 1 - i,
    {
        if matches_at(hay, needle, i) {
            return true;
        }
        i = i + 1;
    }
    false
}

/// How often `b` stands in `s`.
pub open spec fn count_of(s: Seq<u8>, b: u8) -> nat
    decreases s.len(),
{
    if s.len() == 0 {
        0
    } else {
        count_of(s.drop_last(), b) + (if s.last() == b { 1nat } else { 0nat })
    }
}

/// The first byte of `s` that is not white space.
pub open spec fn first_visible(s: Seq<u8>) -> Option<u8>
    decreases s.len(),
{
    if s.len() == 0 {
        None
    } else if !ascii::is_space(s[0]) {
        Some(s[0])
    } else {
        first_visible(s.skip(1))
    }
}

/// How many bytes of the input decide its format.
pub const SAMPLE: usize = 65536;

/// The prefix that decides the format.
pub open spec fn sample_of(data: Seq<u8>) -> Seq<u8> {
    if data.len() <= SAMPLE { data } else { data.take(SAMPLE as int) }
}

/// `</`, `<?xml` and `/>`.
pub open spec fn looks_like_markup(s: Seq<u8>) -> bool {
    ||| occurs(s, seq![0x3cu8, 0x2f])
    ||| occurs(s, seq![0x3cu8, 0x3f, 0x78, 0x6d, 0x6c])
    ||| occurs(s, seq![0x2fu8, 0x3e])
}

/// `INSERT INTO` and `CREATE TABLE`.
pub open spec fn looks_like_dump(s: Seq<u8>) -> bool {
    ||| occurs(s, seq![0x49u8, 0x4e, 0x53, 0x45, 0x52, 0x54, 0x20, 0x49, 0x4e, 0x54, 0x4f])
    ||| occurs(s, seq![0x43u8, 0x52, 0x45, 0x41, 0x54, 0x45, 0x20, 0x54, 0x41, 0x42, 0x4c, 0x45])
}

/// The format of data that starts with the sample `s`: JSON where it opens with
/// a bracket and has a brace for every two lines, XML where it opens with `<` and
/// has a tag that closes, SQL where a statement of a dump stands in it, CSV where
/// it has a comma for every line, and otherwise generic. A last line without a
/// line feed counts as a line.
pub open spec fn format_of(s: Seq<u8>) -> Mode {
    let first = first_visible(s);
    let lines = count_of(s, LF) + 1;
    if (first == Some(OPEN_BRACE) || first == Some(OPEN_BRACKET)) && count_of(s, OPEN_BRACE) * 2
        >= lines {
        Mode::Json
    } else if first == Some(LESS) && looks_like_markup(s) {
        Mode::Xml
    } else if looks_like_dump(s) {
        Mode::Sql
    } else if count_of(s, COMMA) >= lines {
        Mode::Csv
    } else {
        Mode::Generic
    }
}

/// The first byte of `s` that is not white space.
fn find_visible(s: &[u8]) -> (r: Option<u8>)
    ensures
        r == first_visible(s@),
{
    let mut i: usize = 0;
    assert(s@.skip(0) =~= s@);
    while i < s.len()
        invariant
            i <= s@.len(),
            first_visible(s@) == first_visible(s@.skip(i as int)),
        decreases s@.len() - i,
    {
        if !ascii::space(s[i]) {
            return Some(s[i]);
        }
        assert(s@.skip(i as int).skip(1) =~= s@.skip(i + 1));
        i = i + 1;
    }
    None
}

/// Whether a tag that closes, or an XML declaration, stands in the sample.
fn has_markup(s: &[u8]) -> (r: bool)
    ensures
        r == looks_like_markup(s@),
{
    let close: [u8; 2] = [0x3c, 0x2f];
    let decl: [u8; 5] = [0x3c, 0x3f, 0x78, 0x6d, 0x6c];
    let empty: [u8; 2] = [0x2f, 0x3e];
    assert(close@ =~= seq![0x3cu8, 0x2f]);
    assert(decl@ =~= seq![0x3cu8, 0x3f, 0x78, 0x6d, 0x6c]);
    assert(empty@ =~= seq![0x2fu8, 0x3e]);
    contains(s, &close) || contains(s, &decl) || contains(s, &empty)
}

/// Whether a statement of a database dump stands in the sample.
fn has_dump(s: &[u8]) -> (r: bool)
    ensures
        r == looks_like_dump(s@),
{
    let insert: [u8; 11] = [0x49, 0x4e, 0x53, 0x45, 0x52, 0x54, 0x20, 0x49, 0x4e, 0x54, 0x4f];
    let create: [u8; 12] = [0x43, 0x52, 0x45, 0x41, 0x54, 0x45, 0x20, 0x54, 0x41, 0x42, 0x4c, 0x45];
    assert(insert@ =~= seq![0x49u8, 0x4e, 0x53, 0x45, 0x52, 0x54, 0x20, 0x49, 0x4e, 0x54, 0x4f]);
    assert(create@ =~= seq![
        0x43u8, 0x52, 0x45, 0x41, 0x54, 0x45, 0x20, 0x54, 0x41, 0x42, 0x4c, 0x45,
    ]);
    contains(s, &insert) || contains(s, &create)
}

/// Sniff the data format from a prefix. The result is stored in the container
/// header so the decoder configures the same parser.
pub fn sniff(data: &[u8]) -> (m: Mode)
    ensures
        m == format_of(sample_of(data@)),
{
    let len: usize = if data.len() <= SAMPLE { data.len() } else { SAMPLE };
    let sample: &[u8] = &data[0..len];
    assert(sample@ =~= sample_of(data@));
    let first = find_visible(sample);
    let mut lines: usize = 1;
    let mut commas: usize = 0;
    let mut braces: usize = 0;
    let mut i: usize = 0;
    while i < len
        invariant
            i <= len == sample@.len() <= SAMPLE,
            lines == count_of(sample@.take(i as int), LF) + 1,
            commas == count_of(sample@.take(i as int), COMMA),
            braces == count_of(sample@.take(i as int), OPEN_BRACE),
            lines <= i + 1,
            commas <= i,
            braces <= i,
        decreases len - i,
    {
        assert(sample@.take(i + 1).drop_last() =~= sample@.take(i as int));
        let b: u8 = sample[i];
        if b == LF {
            lines = lines + 1;
        } else if b == COMMA {
            commas = commas + 1;
        } else if b == OPEN_BRACE {
            braces = braces + 1;
        }
        i = i + 1;
    }
    assert(sample@.take(len as int) =~= sample@);
    let opens_bracket: bool = match first {
        Some(b) => b == OPEN_BRACE || b == OPEN_BRACKET,
        None => false,
    };
    let opens_tag: bool = match first {
        Some(b) => b == LESS,
        None => false,
    };
    if opens_bracket && braces * 2 >= lines {
        Mode::Json
    } else if opens_tag && has_markup(sample) {
        Mode::Xml
    } else if has_dump(sample) {
        Mode::Sql
    } else if commas >= lines {
        Mode::Csv
    } else {
        Mode::Generic
    }
}

} // verus!
