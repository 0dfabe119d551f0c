//! The state of the streaming parsers, and what each of them makes of a byte.
//!
//! The parsers are heuristics, not validators: every byte is taken in every state.

use vstd::prelude::*;
use crate::ascii;
use crate::ascii::{
    APOSTROPHE, BACKSLASH, CLOSE_BRACE, CLOSE_BRACKET, CLOSE_PAREN, COLON, COMMA, GREATER, LESS, LF,
    MINUS, OPEN_BRACE, OPEN_BRACKET, OPEN_PAREN, QUOTE, SLASH, ZERO,
};
use crate::hashing;
use crate::hashing::SPREAD;
use crate::match_model;
use crate::mode::Mode;
use crate::numeric;
use crate::numeric::{NumState, MAX_DIGITS, MAX_HITS, NUMSLOTS};
use crate::relation;
use crate::relation::{CrossState, RowValue, MAX_ROW};
use crate::tables;

verus! {

/// Field identity of the items of an array.
pub const ARRAY_TAG: u32 = 0xA22A_5151;

/// Positions within a token are told apart up to this one.
pub const MAX_VPOS: u32 = 31;

/// Parentheses of a SQL text are told apart up to this depth.
pub const MAX_PARENS: usize = 32;

/// Open XML elements are remembered up to this number.
pub const MAX_ELEMENTS: usize = 64;

/// Bytes of the text of a foreseen value: a sign and the digits of a 64-bit number.
pub const MAX_TEXT: usize = 20;

/// Where what is known of `field` is kept.
pub open spec fn slot_of(field: u32) -> int {
    (field as nat % NUMSLOTS as nat) as int
}

/// An open JSON object or array.
#[derive(Clone, Copy)]
pub struct Frame {
    pub is_object: bool,
    pub key_hash: u32,
    pub expect_key: bool,
}

/// Where a parser stands within a token.
#[derive(Clone, Copy)]
pub struct TextState {
    /// Inside a string, and behind a backslash in it.
    pub in_str: bool,
    pub esc: bool,
    /// Position within the token, up to `MAX_VPOS`.
    pub vpos: u32,
}

#[derive(Clone, Copy)]
pub struct JsonState {
    /// The string is a key; the hash of its text.
    pub str_is_key: bool,
    pub cur_str_hash: u32,
    /// A value is to come.
    pub value_pending: bool,
}

#[derive(Clone, Copy)]
pub struct CsvState {
    pub col: u32,
    pub in_quote: bool,
    /// A value is to come.
    pub value_pending: bool,
}

#[derive(Clone, Copy)]
pub struct SqlState {
    pub col: u32,
    /// A value is to come.
    pub value_pending: bool,
}

#[derive(Clone, Copy)]
pub struct XmlState {
    pub in_tag: bool,
    pub in_attr: bool,
    /// The quote that closes the attribute value.
    pub aq: u8,
    /// The hash of the name of the tag.
    pub cur_hash: u32,
    /// Inside the name of the tag, and past its first byte.
    pub reading: bool,
    pub name_started: bool,
    /// The tag closes an element, or itself.
    pub close: bool,
    pub selfclose: bool,
}

/// The number that is being read.
#[derive(Clone, Copy)]
pub struct Scan {
    pub in_num_value: bool,
    pub cur_num: i64,
    pub cur_len: u32,
    pub cur_neg: bool,
    pub cur_is_num: bool,
    pub cur_field: u32,
}

/// The state of the parsers and of the numeric model that they feed.
pub struct ParserView {
    pub text: TextState,
    pub json: JsonState,
    pub csv: CsvState,
    pub sql: SqlState,
    pub xml: XmlState,
    pub scan: Scan,
    /// Open JSON objects and arrays.
    pub stack: Seq<Frame>,
    /// The columns at which the open SQL parentheses stand.
    pub parens: Seq<u32>,
    /// The name hashes of the open XML elements.
    pub elements: Seq<u32>,
    /// What is known of the fields.
    pub num: Seq<NumState>,
    /// What the fields are known to have to do with others of their row.
    pub cross: Seq<CrossState>,
    /// The values of the present row.
    pub row: Seq<RowValue>,
    /// The text of the foreseen value, how much of it has been read, whether it
    /// has held so far, and the stretched confidence in it.
    pub np_digits: Seq<u8>,
    pub np_ptr: nat,
    pub np_active: bool,
    pub num_mag: i32,
}

pub open spec fn start_scan() -> Scan {
    Scan {
        in_num_value: false,
        cur_num: 0,
        cur_len: 0,
        cur_neg: false,
        cur_is_num: false,
        cur_field: 0,
    }
}

/// The next position within a token.
pub open spec fn next_vpos(vpos: u32) -> u32 {
    if vpos < MAX_VPOS { (vpos + 1) as u32 } else { MAX_VPOS }
}

/// The digit `c` as a number.
pub open spec fn digit_value(c: u8) -> int {
    c - ZERO
}

impl Scan {
    /// A number of `field` starts with `c`, a digit or a minus sign.
    pub open spec fn begun(field: u32, c: u8) -> Scan {
        Scan {
            in_num_value: true,
            cur_num: if c == MINUS { 0 } else { digit_value(c) as i64 },
            cur_len: if c == MINUS { 0 } else { 1 },
            cur_neg: c == MINUS,
            cur_is_num: true,
            cur_field: field,
        }
    }

    /// The number goes on with the digit `c`; one that is too long is given up.
    pub open spec fn extended(self, c: u8) -> Scan {
        if self.cur_len < MAX_DIGITS {
            Scan {
                cur_num: (self.cur_num * 10 + digit_value(c)) as i64,
                cur_len: (self.cur_len + 1) as u32,
                ..self
            }
        } else {
            Scan { cur_is_num: false, ..self }
        }
    }

    /// The value read, with its sign.
    pub open spec fn value(self) -> i64 {
        (if self.cur_neg { -self.cur_num } else { self.cur_num as int }) as i64
    }

    /// The value read has no more digits than were counted.
    pub open spec fn sound(self) -> bool {
        &&& self.cur_len <= MAX_DIGITS
        &&& 0 <= self.cur_num < numeric::pow10(self.cur_len as nat)
    }
}

impl ParserView {
    pub open spec fn start() -> ParserView {
        ParserView {
            text: TextState { in_str: false, esc: false, vpos: 0 },
            json: JsonState { str_is_key: false, cur_str_hash: 0, value_pending: false },
            csv: CsvState { col: 0, in_quote: false, value_pending: true },
            sql: SqlState { col: 0, value_pending: false },
            xml: XmlState {
                in_tag: false,
                in_attr: false,
                aq: 0,
                cur_hash: 0,
                reading: false,
                name_started: false,
                close: false,
                selfclose: false,
            },
            scan: start_scan(),
            stack: Seq::empty(),
            parens: Seq::empty(),
            elements: Seq::empty(),
            num: Seq::new(NUMSLOTS as nat, |i: int| NumState::fresh()),
            cross: Seq::new(NUMSLOTS as nat, |i: int| CrossState::fresh()),
            row: Seq::empty(),
            np_digits: Seq::empty(),
            np_ptr: 0,
            np_active: false,
            num_mag: 0,
        }
    }

    /// What every byte keeps.
    pub open spec fn sound(self) -> bool {
        &&& self.text.vpos <= MAX_VPOS
        &&& self.scan.sound()
        &&& self.parens.len() <= MAX_PARENS
        &&& self.elements.len() <= MAX_ELEMENTS
        &&& self.num.len() == NUMSLOTS
        &&& forall|i: int| 0 <= i < NUMSLOTS ==> (#[trigger] self.num[i]).hits <= MAX_HITS
        &&& self.cross.len() == NUMSLOTS
        &&& forall|i: int| 0 <= i < NUMSLOTS ==> (#[trigger] self.cross[i]).hits <= MAX_HITS
        &&& self.row.len() <= MAX_ROW
        &&& self.np_ptr <= self.np_digits.len() <= MAX_TEXT
        &&& -2047 <= self.num_mag <= 2047
    }

    /// One byte further within the token.
    pub open spec fn advanced(self) -> ParserView {
        ParserView { text: TextState { vpos: next_vpos(self.text.vpos), ..self.text }, ..self }
    }

    /// At the start of a token.
    pub open spec fn restarted(self) -> ParserView {
        ParserView { text: TextState { vpos: 0, ..self.text }, ..self }
    }

    // ---- the numeric model ----

    /// Without a foreseen value.
    pub open spec fn unforeseen(self) -> ParserView {
        ParserView { np_active: false, ..self }
    }

    /// With the value `v` foreseen, by a hypothesis that had `hits`.
    pub open spec fn expecting(self, v: i64, hits: u32) -> ParserView {
        ParserView {
            np_digits: numeric::signed_decimal(v as int),
            np_ptr: 0,
            np_active: true,
            num_mag: tables::stretch_table()[match_model::confidence(hits as nat) as int],
            ..self
        }
    }

    /// With the value that `field` is expected to have next, if it had any. Of two
    /// hypotheses the more confident is followed: that it continues its last step,
    /// or that it keeps its relation to another column of the row.
    pub open spec fn foreseeing(self, field: u32) -> ParserView {
        let slot = self.num[slot_of(field)];
        let cross = self.cross[slot_of(field)];
        let related = cross.forecast(self.row);
        if related is Some && cross.hits > slot.hits {
            self.expecting(related->0, cross.hits)
        } else if slot.seen {
            self.expecting(slot.forecast(), slot.hits)
        } else {
            self.unforeseen()
        }
    }

    /// The byte `c` of a value has been read: the foreseen text goes on or is
    /// given up.
    pub open spec fn consumed(self, c: u8) -> ParserView {
        if self.np_active && self.np_ptr < self.np_digits.len() && self.np_digits[self.np_ptr as int]
            == c {
            ParserView { np_ptr: self.np_ptr + 1, ..self }
        } else {
            self.unforeseen()
        }
    }

    /// `field` had the value `v`: both hypotheses learn it, and it joins the row.
    pub open spec fn with_value(self, field: u32, v: i64) -> ParserView {
        let i = slot_of(field);
        let slot = self.num[i];
        ParserView {
            num: self.num.update(i, slot.learned(v)),
            cross: self.cross.update(i, self.cross[i].learned(field, slot, self.row, v)),
            row: relation::noted(
                self.row,
                RowValue { field, value: v, before: if slot.seen { Some(slot.last) } else { None } },
            ),
            ..self
        }
    }

    /// A new row or record begins.
    pub open spec fn row_begun(self) -> ParserView {
        ParserView { row: Seq::empty(), ..self }
    }

    /// The field of the number just read learns its value.
    pub open spec fn finalized(self) -> ParserView {
        if self.scan.cur_is_num && self.scan.cur_len > 0 {
            self.with_value(self.scan.cur_field, self.scan.value())
        } else {
            self
        }
    }

    /// Outside any number.
    pub open spec fn numberless(self) -> ParserView {
        ParserView { scan: Scan { in_num_value: false, ..self.scan }, ..self }
    }

    /// A number of `field` starts with `c`.
    pub open spec fn number_begun(self, field: u32, c: u8) -> ParserView {
        ParserView { scan: Scan::begun(field, c), ..self }.consumed(c)
    }

    /// The number goes on with the digit `c`.
    pub open spec fn number_extended(self, c: u8) -> ParserView {
        ParserView { scan: self.scan.extended(c), ..self }.consumed(c)
    }

    /// The number ends before `c`. One with a fraction or an exponent is not
    /// learned.
    pub open spec fn number_ended(self, c: u8) -> ParserView {
        ParserView {
            scan: Scan {
                cur_is_num: self.scan.cur_is_num && !ascii::is_float_mark(c),
                ..self.scan
            },
            ..self
        }.finalized().numberless().unforeseen()
    }

    /// What the numeric model says of the next bit.
    pub open spec fn number_vote(self, c0: u32, bitpos: u32) -> int {
        if self.np_active && self.np_ptr < self.np_digits.len() {
            match_model::byte_vote(self.np_digits[self.np_ptr as int], self.num_mag, c0, bitpos)
        } else {
            0
        }
    }

    // ---- JSON ----

    /// The field whose value comes next: the last key of the innermost object, or
    /// the mark of an array, or 0 outside of both.
    pub open spec fn json_field(self) -> u32 {
        if self.stack.len() == 0 {
            0
        } else if self.stack.last().is_object {
            self.stack.last().key_hash
        } else {
            ARRAY_TAG
        }
    }

    /// The innermost object or array replaced.
    pub open spec fn with_top(self, f: Frame) -> ParserView {
        ParserView { stack: self.stack.drop_last().push(f), ..self }
    }

    /// A value of the present field is to come.
    pub open spec fn json_awaiting(self) -> ParserView {
        ParserView { json: JsonState { value_pending: true, ..self.json }, ..self }.foreseeing(
            self.json_field(),
        )
    }

    /// No value is to come.
    pub open spec fn json_settled(self) -> ParserView {
        ParserView { json: JsonState { value_pending: false, ..self.json }, ..self }
    }

    /// A byte inside a string. A key that ends names the fields to come.
    pub open spec fn json_in_string(self, c: u8) -> ParserView {
        let more = ParserView {
            text: TextState { esc: false, ..self.text },
            json: JsonState {
                cur_str_hash: hashing::hash_step(self.json.cur_str_hash, c),
                ..self.json
            },
            ..self
        };
        if self.text.esc {
            more
        } else if c == BACKSLASH {
            ParserView { text: TextState { esc: true, ..self.text }, ..self }
        } else if c == QUOTE {
            let s = ParserView { text: TextState { in_str: false, ..self.text }, ..self };
            if self.json.str_is_key && self.stack.len() > 0 {
                s.with_top(
                    Frame {
                        key_hash: self.json.cur_str_hash,
                        expect_key: false,
                        ..self.stack.last()
                    },
                )
            } else {
                s
            }
        } else {
            more
        }
    }

    /// A string begins; it is a key where the innermost object expects one.
    pub open spec fn json_string_begun(self) -> ParserView {
        ParserView {
            text: TextState { in_str: true, esc: false, ..self.text },
            json: JsonState {
                cur_str_hash: SPREAD,
                str_is_key: self.stack.len() > 0 && self.stack.last().is_object
                    && self.stack.last().expect_key,
                ..self.json
            },
            ..self
        }
    }

    /// An object or array begins.
    pub open spec fn json_opened(self, is_object: bool) -> ParserView {
        ParserView {
            stack: self.stack.push(Frame { is_object, key_hash: 0, expect_key: is_object }),
            ..self
        }
    }

    /// An object is to begin: a record of its own, unless it is a member of another
    /// object.
    pub open spec fn json_record_begun(self) -> ParserView {
        if self.stack.len() > 0 && self.stack.last().is_object {
            self
        } else {
            self.row_begun()
        }
    }

    /// The innermost object or array ends, if there is one.
    pub open spec fn json_closed(self) -> ParserView {
        if self.stack.len() > 0 {
            ParserView { stack: self.stack.drop_last(), ..self }
        } else {
            self
        }
    }

    /// Whether the innermost bracket, if any, waits for a key.
    pub open spec fn json_expecting_key(self, expect_key: bool) -> ParserView {
        if self.stack.len() > 0 {
            self.with_top(Frame { expect_key, ..self.stack.last() })
        } else {
            self
        }
    }

    /// A comma: the next member of an object begins with its key, that of an array
    /// with its value.
    pub open spec fn json_next(self) -> ParserView {
        if self.stack.len() > 0 && self.stack.last().is_object {
            self.json_expecting_key(true).json_settled().unforeseen()
        } else {
            self.json_awaiting()
        }
    }

    /// A byte that is neither inside a string nor the start of an awaited number.
    pub open spec fn json_token(self, c: u8) -> ParserView {
        if c == QUOTE {
            self.json_string_begun().restarted()
        } else if c == OPEN_BRACE {
            self.json_record_begun().json_opened(true).restarted()
        } else if c == OPEN_BRACKET {
            self.json_opened(false).json_awaiting().restarted()
        } else if c == CLOSE_BRACE || c == CLOSE_BRACKET {
            self.json_closed().restarted()
        } else if c == COLON {
            self.json_expecting_key(false).json_awaiting().restarted()
        } else if c == COMMA {
            self.json_next().restarted()
        } else if ascii::is_blank(c) {
            self.restarted()
        } else {
            self.advanced()
        }
    }

    /// A byte outside strings and numbers.
    pub open spec fn json_outside(self, c: u8) -> ParserView {
        if !self.json.value_pending {
            self.json_token(c)
        } else if ascii::is_blank(c) {
            self.restarted()
        } else if ascii::is_digit(c) || c == MINUS {
            self.json_settled().number_begun(self.json_field(), c).restarted()
        } else {
            self.json_settled().unforeseen().json_token(c)
        }
    }

    /// The JSON parser.
    pub open spec fn json_step(self, c: u8) -> ParserView {
        if self.text.in_str {
            self.json_in_string(c).advanced()
        } else if self.scan.in_num_value && ascii::is_digit(c) {
            self.number_extended(c).advanced()
        } else if self.scan.in_num_value {
            self.number_ended(c).json_outside(c)
        } else {
            self.json_outside(c)
        }
    }

    // ---- generic text ----

    /// The parser for text without structure: the position within a token, and
    /// within quotes.
    pub open spec fn generic_step(self, c: u8) -> ParserView {
        if self.text.in_str {
            ParserView { text: TextState { in_str: c != QUOTE, ..self.text }, ..self }.advanced()
        } else if c == QUOTE {
            ParserView { text: TextState { in_str: true, ..self.text }, ..self }.restarted()
        } else if ascii::is_blank(c) {
            self.restarted()
        } else {
            self.advanced()
        }
    }

    // ---- SQL ----

    /// The field of the present column at the present depth.
    pub open spec fn sql_field(self) -> u32 {
        hashing::sql_field_id(self.sql.col, self.parens.len() as u32)
    }

    /// A value of the present column is to come.
    pub open spec fn sql_awaiting(self) -> ParserView {
        ParserView { sql: SqlState { value_pending: true, ..self.sql }, ..self }.foreseeing(
            self.sql_field(),
        )
    }

    /// A parenthesis is to open: outside of all others it begins a new row.
    pub open spec fn sql_row_begun(self) -> ParserView {
        if self.parens.len() == 0 { self.row_begun() } else { self }
    }

    /// A parenthesis opens, at the first column of a tuple.
    pub open spec fn sql_opened(self) -> ParserView {
        ParserView {
            parens: if self.parens.len() < MAX_PARENS {
                self.parens.push(self.sql.col)
            } else {
                self.parens
            },
            sql: SqlState { col: 0, ..self.sql },
            ..self
        }
    }

    /// A parenthesis closes: back to the column at which it opened.
    pub open spec fn sql_closed(self) -> ParserView {
        if self.parens.len() > 0 {
            ParserView {
                parens: self.parens.drop_last(),
                sql: SqlState { col: self.parens.last(), value_pending: false },
                ..self
            }
        } else {
            ParserView { sql: SqlState { value_pending: false, ..self.sql }, ..self }
        }
    }

    /// The awaited value begins with `c`, and inside a parenthesis may be a number.
    pub open spec fn sql_value_begun(self, c: u8) -> ParserView {
        let s = ParserView { sql: SqlState { value_pending: false, ..self.sql }, ..self };
        if (ascii::is_digit(c) || c == MINUS) && self.parens.len() > 0 {
            s.number_begun(self.sql_field(), c)
        } else {
            s.numberless().unforeseen()
        }
    }

    /// A byte inside a string literal.
    pub open spec fn sql_in_string(self, c: u8) -> ParserView {
        ParserView {
            text: TextState {
                esc: !self.text.esc && c == BACKSLASH,
                in_str: self.text.esc || c != APOSTROPHE,
                ..self.text
            },
            ..self
        }.numberless().unforeseen()
    }

    /// A byte outside strings and numbers.
    pub open spec fn sql_outside(self, c: u8) -> ParserView {
        if c == APOSTROPHE {
            ParserView {
                text: TextState { in_str: true, esc: false, ..self.text },
                sql: SqlState { value_pending: false, ..self.sql },
                ..self
            }.unforeseen().restarted()
        } else if c == OPEN_PAREN {
            self.sql_row_begun().sql_opened().sql_awaiting().restarted()
        } else if c == CLOSE_PAREN {
            self.sql_closed().unforeseen().restarted()
        } else if c == COMMA {
            ParserView {
                sql: SqlState { col: self.sql.col.wrapping_add(1), ..self.sql },
                ..self
            }.sql_awaiting().restarted()
        } else if ascii::is_blank(c) {
            self.restarted()
        } else if self.sql.value_pending {
            self.sql_value_begun(c).advanced()
        } else {
            self.advanced()
        }
    }

    /// The parser for SQL dumps: every parenthesis is a row of columns, and one
    /// outside of all others begins a row anew.
    pub open spec fn sql_step(self, c: u8) -> ParserView {
        if self.text.in_str {
            self.sql_in_string(c).advanced()
        } else if self.scan.in_num_value && ascii::is_digit(c) {
            self.number_extended(c).advanced()
        } else if self.scan.in_num_value {
            self.number_ended(c).sql_outside(c)
        } else {
            self.sql_outside(c)
        }
    }

    // ---- XML ----

    /// A tag ends: it opens an element, closes one, or does neither.
    pub open spec fn xml_tag_end(self) -> ParserView {
        let s = ParserView { xml: XmlState { in_tag: false, ..self.xml }, ..self };
        if self.xml.close {
            if self.elements.len() > 0 {
                ParserView { elements: self.elements.drop_last(), ..s }
            } else {
                s
            }
        } else if !self.xml.selfclose && self.elements.len() < MAX_ELEMENTS {
            ParserView { elements: self.elements.push(self.xml.cur_hash), ..s }
        } else {
            s
        }
    }

    /// An attribute value begins with the quote `c`.
    pub open spec fn xml_value_begun(self, c: u8) -> ParserView {
        ParserView { xml: XmlState { in_attr: true, aq: c, ..self.xml }, ..self }
    }

    /// A slash: before the name it makes the tag a closing one, behind it one that
    /// closes itself.
    pub open spec fn xml_slash(self) -> ParserView {
        if self.xml.name_started {
            ParserView { xml: XmlState { selfclose: true, ..self.xml }, ..self }
        } else {
            ParserView { xml: XmlState { close: true, ..self.xml }, ..self }
        }
    }

    /// Another byte of the tag, which may be one of its name.
    pub open spec fn xml_name_byte(self, c: u8) -> ParserView {
        if self.xml.reading {
            ParserView {
                xml: XmlState {
                    cur_hash: hashing::hash_step(self.xml.cur_hash, c),
                    name_started: true,
                    ..self.xml
                },
                ..self
            }
        } else {
            self
        }
    }

    /// A byte inside a tag, outside attribute values.
    pub open spec fn xml_in_tag(self, c: u8) -> ParserView {
        if c == QUOTE || c == APOSTROPHE {
            self.xml_value_begun(c).restarted()
        } else if c == GREATER {
            self.xml_tag_end().restarted()
        } else if c == SLASH {
            self.xml_slash().advanced()
        } else if ascii::is_blank(c) {
            ParserView { xml: XmlState { reading: false, ..self.xml }, ..self }.restarted()
        } else {
            self.xml_name_byte(c).advanced()
        }
    }

    /// The parser for XML and HTML: the open elements, and whether a tag or an
    /// attribute value is being read.
    pub open spec fn xml_step(self, c: u8) -> ParserView {
        if self.xml.in_attr {
            ParserView {
                xml: XmlState { in_attr: c != self.xml.aq, ..self.xml },
                ..self
            }.advanced()
        } else if self.xml.in_tag {
            self.xml_in_tag(c)
        } else if c == LESS {
            ParserView {
                xml: XmlState {
                    in_tag: true,
                    reading: true,
                    name_started: false,
                    close: false,
                    selfclose: false,
                    cur_hash: SPREAD,
                    ..self.xml
                },
                ..self
            }.restarted()
        } else if ascii::is_blank(c) {
            self.restarted()
        } else {
            self.advanced()
        }
    }

    // ---- CSV ----

    /// The column ends before `c`, and at a line feed the row does too.
    pub open spec fn csv_left(self, c: u8) -> ParserView {
        let s = if self.scan.in_num_value { self.finalized().numberless() } else { self };
        if c == LF { s.row_begun() } else { s }
    }

    /// The next column, or the first one of the next row, begins.
    pub open spec fn csv_next(self, c: u8) -> ParserView {
        let col = if c == LF { 0 } else { self.csv.col.wrapping_add(1) };
        ParserView {
            csv: CsvState { col: col, value_pending: true, ..self.csv },
            ..self.csv_left(c)
        }.foreseeing(hashing::csv_field_id(col)).restarted()
    }

    /// The parser for delimited text: the column, and whether it is quoted.
    pub open spec fn csv_step(self, c: u8) -> ParserView {
        if self.csv.in_quote {
            ParserView {
                csv: CsvState { in_quote: c != QUOTE, ..self.csv },
                ..self
            }.numberless().unforeseen().advanced()
        } else if c == QUOTE {
            ParserView {
                csv: CsvState { in_quote: true, value_pending: false, ..self.csv },
                ..self
            }.numberless().unforeseen().restarted()
        } else if c == COMMA || c == LF {
            self.csv_next(c)
        } else if self.csv.value_pending {
            let s = ParserView { csv: CsvState { value_pending: false, ..self.csv }, ..self };
            if ascii::is_digit(c) || c == MINUS {
                s.number_begun(hashing::csv_field_id(self.csv.col), c).advanced()
            } else {
                s.numberless().unforeseen().advanced()
            }
        } else if self.scan.in_num_value && ascii::is_digit(c) {
            self.number_extended(c).advanced()
        } else if self.scan.in_num_value {
            self.number_ended(c).advanced()
        } else {
            self.advanced()
        }
    }

    /// The byte `c` is read in the format `mode`.
    pub open spec fn fed(self, mode: Mode, c: u8) -> ParserView {
        match mode {
            Mode::Json => self.json_step(c),
            Mode::Csv => self.csv_step(c),
            Mode::Sql => self.sql_step(c),
            Mode::Xml => self.xml_step(c),
            Mode::Generic => self.generic_step(c),
        }
    }
}

/// A JSON bracket that closes leads back to where the one it closes was opened.
pub proof fn law_bracket_is_undone(s: ParserView, is_object: bool)
    ensures
        s.json_opened(is_object).json_closed() == s,
{
    assert(s.json_opened(is_object).json_closed().stack =~= s.stack);
}

/// A SQL parenthesis that closes leads back to the column and the depth at which
/// the one it closes was opened. Only parentheses deeper than are told apart are
/// left out.
pub proof fn law_parenthesis_is_undone(s: ParserView)
    requires
        s.parens.len() < MAX_PARENS,
    ensures
        s.sql_outside(OPEN_PAREN).sql_outside(CLOSE_PAREN).parens == s.parens,
        s.sql_outside(OPEN_PAREN).sql_outside(CLOSE_PAREN).sql.col == s.sql.col,
{
    assert(s.parens.push(s.sql.col).drop_last() =~= s.parens);
}

/// A closing XML tag leads back to the elements that were open before the tag it
/// closes. Only elements beyond those that are remembered are left out.
pub proof fn law_element_is_undone(s: ParserView)
    requires
        !s.xml.close,
        !s.xml.selfclose,
        s.elements.len() < MAX_ELEMENTS,
    ensures
        ({
            let open = s.xml_tag_end();
            let closing = ParserView { xml: XmlState { close: true, ..open.xml }, ..open };
            &&& open.elements == s.elements.push(s.xml.cur_hash)
            &&& closing.xml_tag_end().elements == s.elements
        }),
{
    assert(s.elements.push(s.xml.cur_hash).drop_last() =~= s.elements);
}

} // verus!
