//! What the JSON parser makes of JSON: every number of a document reaches the field it
//! stands in, however the document is spaced.

use vstd::prelude::*;
use crate::ascii;
use crate::columns;
use crate::csv_text;
use crate::foresight;
use crate::hashing;
use crate::numeric;
use crate::parser::{Frame, JsonState, ParserView, Scan, TextState};

verus! {

/// The state after all of `text`.
pub open spec fn json_fed(s: ParserView, text: Seq<u8>) -> ParserView
    decreases text.len(),
{
    if text.len() == 0 { s } else { json_fed(s, text.drop_last()).json_step(text.last()) }
}

/// Space, line feed, carriage return, tab.
pub open spec fn is_gap(c: u8) -> bool {
    c == 0x20 || c == 0x0a || c == 0x0d || c == 0x09
}

/// Nothing but white space.
pub open spec fn gaps(text: Seq<u8>) -> bool {
    forall|i: int| 0 <= i < text.len() ==> is_gap(#[trigger] text[i])
}

/// The inside of a string: any bytes, a quote or a backslash only behind a backslash.
pub open spec fn string_body(text: Seq<u8>) -> bool
    decreases text.len(),
{
    if text.len() == 0 {
        true
    } else if text[0] == 0x5c {
        text.len() >= 2 && string_body(text.skip(2))
    } else {
        text[0] != 0x22 && string_body(text.skip(1))
    }
}

/// The inside of a string without the backslashes that escape something.
pub open spec fn unescaped(text: Seq<u8>) -> Seq<u8>
    decreases text.len(),
{
    if text.len() == 0 {
        Seq::empty()
    } else if text[0] == 0x5c && text.len() >= 2 {
        seq![text[1]] + unescaped(text.skip(2))
    } else {
        seq![text[0]] + unescaped(text.skip(1))
    }
}

/// A byte of a word: neither white space nor one of `"{}[]:,`.
pub open spec fn plain(c: u8) -> bool {
    !is_gap(c) && c != 0x22 && c != 0x7b && c != 0x7d && c != 0x5b && c != 0x5d && c != 0x3a && c
        != 0x2c
}

pub open spec fn plain_text(text: Seq<u8>) -> bool {
    forall|i: int| 0 <= i < text.len() ==> plain(#[trigger] text[i])
}

/// A JSON value, with the white space in it.
pub enum Json {
    Number(i64),
    /// A number with a fraction or an exponent: what stands before the mark, the mark,
    /// and what stands behind it.
    Fraction(i64, u8, Seq<u8>),
    /// A string.
    Text(Seq<u8>),
    /// `true`, `null` and the like.
    Word(Seq<u8>),
    Array(Seq<Item>),
    Object(Seq<Member>),
}

/// An item of an array, with the white space around it.
pub struct Item {
    pub before: Seq<u8>,
    pub value: Json,
    pub after: Seq<u8>,
}

/// A member of an object, with the white space around its parts.
pub struct Member {
    pub before: Seq<u8>,
    pub key: Seq<u8>,
    pub mid: Seq<u8>,
    pub gap: Seq<u8>,
    pub value: Json,
    pub after: Seq<u8>,
}

/// The text of a value.
pub open spec fn json_text(v: Json) -> Seq<u8>
    decreases v, 0nat,
{
    match v {
        Json::Number(n) => numeric::signed_decimal(n as int),
        Json::Fraction(n, mark, rest) => numeric::signed_decimal(n as int) + (seq![mark] + rest),
        Json::Text(body) => quoted(body),
        Json::Word(word) => word,
        Json::Array(items) => seq![0x5bu8] + (items_text(items, items.len()) + seq![0x5du8]),
        Json::Object(ms) => seq![0x7bu8] + (members_text(ms, ms.len()) + seq![0x7du8]),
    }
}

pub open spec fn quoted(body: Seq<u8>) -> Seq<u8> {
    seq![0x22u8] + (body + seq![0x22u8])
}

/// The text of the first `n` items, with commas between them.
pub open spec fn items_text(items: Seq<Item>, n: nat) -> Seq<u8>
    decreases items, n,
{
    if n == 0 || n > items.len() {
        Seq::empty()
    } else {
        let it = items[n - 1];
        items_text(items, (n - 1) as nat) + (comma(n) + (it.before + (json_text(it.value)
            + it.after)))
    }
}

/// The text of the first `n` members, with commas between them.
pub open spec fn members_text(ms: Seq<Member>, n: nat) -> Seq<u8>
    decreases ms, n,
{
    if n == 0 || n > ms.len() {
        Seq::empty()
    } else {
        let m = ms[n - 1];
        members_text(ms, (n - 1) as nat) + (comma(n) + (m.before + (quoted(m.key) + (m.mid + (seq![
            0x3au8,
        ] + (m.gap + (json_text(m.value) + m.after)))))))
    }
}

/// What separates the `n`-th part from the one before it.
pub open spec fn comma(n: nat) -> Seq<u8> {
    if n > 1 { seq![0x2cu8] } else { Seq::empty() }
}

/// The parts of a value are what they should be, and its numbers have no more digits
/// than are tracked.
pub open spec fn valid(v: Json) -> bool
    decreases v, 0nat,
{
    match v {
        Json::Number(n) => csv_text::tracked_value(n),
        Json::Fraction(n, mark, rest) => csv_text::tracked_value(n) && plain_text(rest) && (mark
            == 0x2e || mark == 0x65 || mark == 0x45),
        Json::Text(body) => string_body(body),
        Json::Word(word) => word.len() > 0 && plain_text(word) && word[0] != 0x2d && !(0x30
            <= word[0] <= 0x39),
        Json::Array(items) => valid_items(items, items.len()),
        Json::Object(ms) => valid_members(ms, ms.len()),
    }
}

pub open spec fn valid_items(items: Seq<Item>, n: nat) -> bool
    decreases items, n,
{
    if n == 0 || n > items.len() {
        n == 0
    } else {
        let it = items[n - 1];
        &&& valid_items(items, (n - 1) as nat)
        &&& gaps(it.before)
        &&& gaps(it.after)
        &&& valid(it.value)
    }
}

pub open spec fn valid_members(ms: Seq<Member>, n: nat) -> bool
    decreases ms, n,
{
    if n == 0 || n > ms.len() {
        n == 0
    } else {
        let m = ms[n - 1];
        &&& valid_members(ms, (n - 1) as nat)
        &&& gaps(m.before)
        &&& gaps(m.mid)
        &&& gaps(m.gap)
        &&& gaps(m.after)
        &&& string_body(m.key)
        &&& valid(m.value)
    }
}

/// The field that a key names.
pub open spec fn field_named(key: Seq<u8>) -> u32 {
    hashing::hash_bytes(0x9e37_79b1, unescaped(key))
}

/// What is known after a value of `field`. Every number is learned by the field it
/// stands in: that of its key, or that of array items. An object that is not a member of
/// another one begins a new row.
pub open spec fn taught(k: ParserView, v: Json, field: u32, in_object: bool) -> ParserView
    decreases v, 0nat,
{
    match v {
        Json::Number(n) => k.with_value(field, n),
        Json::Array(items) => items_taught(k, items, items.len()),
        Json::Object(ms) => members_taught(
            if in_object { k } else { k.row_begun() },
            ms,
            ms.len(),
        ),
        _ => k,
    }
}

pub open spec fn items_taught(k: ParserView, items: Seq<Item>, n: nat) -> ParserView
    decreases items, n,
{
    if n == 0 || n > items.len() {
        k
    } else {
        taught(items_taught(k, items, (n - 1) as nat), items[n - 1].value, 0xA22A_5151, false)
    }
}

pub open spec fn members_taught(k: ParserView, ms: Seq<Member>, n: nat) -> ParserView
    decreases ms, n,
{
    if n == 0 || n > ms.len() {
        k
    } else {
        taught(
            members_taught(k, ms, (n - 1) as nat),
            ms[n - 1].value,
            field_named(ms[n - 1].key),
            true,
        )
    }
}

/// The parser stands between two tokens, inside the brackets of `stack`, with or without
/// a value to come, and knows what `k` knows.
pub open spec fn stands(s: ParserView, stack: Seq<Frame>, pending: bool, k: ParserView) -> bool {
    &&& !s.text.in_str
    &&& !s.scan.in_num_value
    &&& s.stack == stack
    &&& s.json.value_pending == pending
    &&& csv_text::same_knowledge(s, k)
}

/// The parser stands behind a value, which may be a number that the next byte ends.
pub open spec fn done(s: ParserView, stack: Seq<Frame>, k: ParserView) -> bool {
    &&& !s.text.in_str
    &&& s.stack == stack
    &&& !s.json.value_pending
    &&& s.scan.in_num_value ==> s.scan.cur_is_num && s.scan.cur_len > 0
        && csv_text::same_knowledge(s.with_value(s.scan.cur_field, s.scan.value()), k)
    &&& !s.scan.in_num_value ==> csv_text::same_knowledge(s, k)
}

proof fn lemma_on(s: ParserView, a: Seq<u8>, b: Seq<u8>)
    ensures
        json_fed(s, a + b) == json_fed(json_fed(s, a), b),
    decreases b.len(),
{
    if b.len() == 0 {
        assert(a + b =~= a);
    } else {
        assert((a + b).drop_last() =~= a + b.drop_last());
        lemma_on(s, a, b.drop_last());
    }
}

proof fn lemma_byte(s: ParserView, c: u8)
    ensures
        json_fed(s, seq![c]) == s.json_step(c),
{
    assert(seq![c].drop_last() =~= Seq::empty());
    assert(json_fed(s, Seq::empty()) == s);
}

/// White space between tokens changes nothing but the position within the token:
/// neither whether a value is to come, nor what is foreseen of it, nor how sure the
/// model is.
pub proof fn law_json_gaps_change_nothing(s: ParserView, text: Seq<u8>)
    requires
        gaps(text),
        !s.text.in_str,
        !s.scan.in_num_value,
    ensures
        json_fed(s, text) == (ParserView {
            text: TextState { vpos: if text.len() > 0 { 0 } else { s.text.vpos }, ..s.text },
            ..s
        }),
    decreases text.len(),
{
    if text.len() > 0 {
        let c = text.last();
        assert(c == text[text.len() - 1]);
        assert forall|i: int| 0 <= i < text.drop_last().len() implies is_gap(
            #[trigger] text.drop_last()[i],
        ) by {
            assert(text[i] == text.drop_last()[i]);
        }
        law_json_gaps_change_nothing(s, text.drop_last());
        assert(ascii::is_blank(c));
    }
}

proof fn lemma_gaps(s: ParserView, text: Seq<u8>, stack: Seq<Frame>, pending: bool, k: ParserView)
    requires
        gaps(text),
        stands(s, stack, pending, k),
    ensures
        stands(json_fed(s, text), stack, pending, k),
{
    law_json_gaps_change_nothing(s, text);
}

/// A byte that is no digit ends the value, also one that was still open.
proof fn lemma_ended(s: ParserView, c: u8, stack: Seq<Frame>, k: ParserView) -> (u: ParserView)
    requires
        done(s, stack, k),
        !(0x30 <= c <= 0x39),
        c != 0x2e && c != 0x65 && c != 0x45,
    ensures
        stands(u, stack, false, k),
        s.json_step(c) == u.json_step(c),
{
    if s.scan.in_num_value {
        s.number_ended(c)
    } else {
        s
    }
}

proof fn lemma_gaps_behind(s: ParserView, text: Seq<u8>, stack: Seq<Frame>, k: ParserView)
    requires
        gaps(text),
        done(s, stack, k),
    ensures
        done(json_fed(s, text), stack, k),
{
    if text.len() > 0 {
        let c = text[0];
        let rest = text.skip(1);
        assert(is_gap(c));
        let u = lemma_ended(s, c, stack, k);
        assert(text =~= seq![c] + rest);
        lemma_on(s, seq![c], rest);
        lemma_byte(s, c);
        lemma_on(u, seq![c], rest);
        lemma_byte(u, c);
        lemma_gaps(u, text, stack, false, k);
    }
}

proof fn lemma_hash_on(h: u32, a: Seq<u8>, b: Seq<u8>)
    ensures
        hashing::hash_bytes(h, a + b) == hashing::hash_bytes(hashing::hash_bytes(h, a), b),
    decreases b.len(),
{
    if b.len() == 0 {
        assert(a + b =~= a);
    } else {
        assert((a + b).drop_last() =~= a + b.drop_last());
        lemma_hash_on(h, a, b.drop_last());
    }
}

proof fn lemma_hash_byte(h: u32, c: u8)
    ensures
        hashing::hash_bytes(h, seq![c]) == hashing::hash_step(h, c),
{
    assert(seq![c].drop_last() =~= Seq::empty());
    assert(hashing::hash_bytes(h, Seq::empty()) == h);
}

/// The inside of a string changes nothing but the position, and the hash of the string,
/// which is that of its text without the escapes.
pub proof fn law_json_string_is_passed_over(s: ParserView, body: Seq<u8>)
    requires
        string_body(body),
        s.text.in_str,
        !s.text.esc,
    ensures
        ({
            let t = json_fed(s, body);
            t == (ParserView {
                text: TextState { vpos: t.text.vpos, ..s.text },
                json: JsonState {
                    cur_str_hash: hashing::hash_bytes(s.json.cur_str_hash, unescaped(body)),
                    ..s.json
                },
                ..s
            })
        }),
    decreases body.len(),
{
    if body.len() > 0 {
        let c = body[0];
        if c == 0x5c {
            let d = body[1];
            let rest = body.skip(2);
            let t = s.json_step(c).json_step(d);
            assert(body =~= seq![c] + (seq![d] + rest));
            lemma_on(s, seq![c], seq![d] + rest);
            lemma_byte(s, c);
            lemma_on(s.json_step(c), seq![d], rest);
            lemma_byte(s.json_step(c), d);
            law_json_string_is_passed_over(t, rest);
            lemma_hash_on(s.json.cur_str_hash, seq![d], unescaped(rest));
            lemma_hash_byte(s.json.cur_str_hash, d);
        } else {
            let rest = body.skip(1);
            let t = s.json_step(c);
            assert(body =~= seq![c] + rest);
            lemma_on(s, seq![c], rest);
            lemma_byte(s, c);
            law_json_string_is_passed_over(t, rest);
            lemma_hash_on(s.json.cur_str_hash, seq![c], unescaped(rest));
            lemma_hash_byte(s.json.cur_str_hash, c);
        }
    }
}

/// A key is to come.
spec fn awaits_key(stack: Seq<Frame>) -> bool {
    stack.len() > 0 && stack.last().is_object && stack.last().expect_key
}

proof fn lemma_string(s: ParserView, body: Seq<u8>, stack: Seq<Frame>, pending: bool, k: ParserView)
    requires
        string_body(body),
        stands(s, stack, pending, k),
        !awaits_key(stack),
    ensures
        stands(json_fed(s, quoted(body)), stack, false, k),
{
    let q = 0x22u8;
    let a = s.json_step(q);
    let b = json_fed(a, body);
    lemma_on(s, seq![q], body + seq![q]);
    lemma_byte(s, q);
    lemma_on(a, body, seq![q]);
    lemma_byte(b, q);
    law_json_string_is_passed_over(a, body);
}

proof fn lemma_key(s: ParserView, body: Seq<u8>, base: Seq<Frame>, f: Frame, k: ParserView)
    requires
        string_body(body),
        stands(s, base.push(f), false, k),
        f.is_object,
        f.expect_key,
    ensures
        stands(
            json_fed(s, quoted(body)),
            base.push(Frame { is_object: true, key_hash: field_named(body), expect_key: false }),
            false,
            k,
        ),
{
    let q = 0x22u8;
    let a = s.json_step(q);
    let b = json_fed(a, body);
    lemma_on(s, seq![q], body + seq![q]);
    lemma_byte(s, q);
    lemma_on(a, body, seq![q]);
    lemma_byte(b, q);
    law_json_string_is_passed_over(a, body);
    let g = Frame { is_object: true, key_hash: field_named(body), expect_key: false };
    assert(b.stack.drop_last().push(g) =~= base.push(g));
}

proof fn lemma_word(s: ParserView, word: Seq<u8>, stack: Seq<Frame>, pending: bool, k: ParserView)
    requires
        plain_text(word),
        stands(s, stack, pending, k),
        pending ==> word.len() > 0 && word[0] != 0x2d && !(0x30 <= word[0] <= 0x39),
    ensures
        stands(json_fed(s, word), stack, false, k),
    decreases word.len(),
{
    if word.len() > 0 {
        let c = word.last();
        let front = word.drop_last();
        assert(c == word[word.len() - 1]);
        assert forall|i: int| 0 <= i < front.len() implies plain(#[trigger] front[i]) by {
            assert(front[i] == word[i]);
        }
        if front.len() > 0 {
            assert(front[0] == word[0]);
            lemma_word(s, front, stack, pending, k);
        }
        assert(plain(c));
    }
}

/// The first `n` bytes of a number that was awaited.
proof fn lemma_number_bytes(s: ParserView, text: Seq<u8>, n: nat, stack: Seq<Frame>, k: ParserView)
    requires
        stands(s, stack, true, k),
        1 <= n <= text.len(),
        ascii::is_digit(text[0]) || text[0] == 0x2d,
        forall|i: int| 1 <= i < text.len() ==> ascii::is_digit(#[trigger] text[i]),
    ensures
        ({
            let t = json_fed(s, text.take(n as int));
            &&& csv_text::same_knowledge(t, k)
            &&& t.stack == stack
            &&& !t.text.in_str
            &&& !t.json.value_pending
            &&& t.scan == foresight::scanned(
                Scan::begun(s.json_field(), text[0]),
                text.subrange(1, n as int),
            )
            &&& t.scan.in_num_value
        }),
    decreases n,
{
    let m = (n - 1) as nat;
    let c = text[m as int];
    assert(text.take(n as int).drop_last() =~= text.take(m as int));
    assert(text.take(n as int).last() == c);
    if n == 1 {
        assert(text.take(0) =~= Seq::empty());
        assert(json_fed(s, text.take(0)) == s);
        assert(text.subrange(1, 1) =~= Seq::empty());
    } else {
        lemma_number_bytes(s, text, m, stack, k);
        assert(ascii::is_digit(c));
        assert(text.subrange(1, n as int).drop_last() =~= text.subrange(1, m as int));
        assert(text.subrange(1, n as int).last() == c);
    }
}

/// The field of values inside the brackets of `stack`.
spec fn field_in(stack: Seq<Frame>) -> u32 {
    if stack.len() == 0 {
        0
    } else if stack.last().is_object {
        stack.last().key_hash
    } else {
        0xA22A_5151
    }
}

proof fn lemma_number(s: ParserView, v: i64, stack: Seq<Frame>, k: ParserView)
    requires
        stands(s, stack, true, k),
        csv_text::tracked_value(v),
    ensures
        ({
            let t = json_fed(s, numeric::signed_decimal(v as int));
            &&& done(t, stack, k.with_value(field_in(stack), v))
            &&& t.scan.in_num_value
            &&& csv_text::same_knowledge(t, k)
        }),
{
    let text = numeric::signed_decimal(v as int);
    csv_text::lemma_number_text(v);
    lemma_number_bytes(s, text, text.len(), stack, k);
    assert(text.take(text.len() as int) =~= text);
    assert(text.subrange(1, text.len() as int) =~= text.skip(1));
    foresight::law_number_reads_back(field_in(stack), v as int);
}

proof fn lemma_fraction(
    s: ParserView,
    v: i64,
    mark: u8,
    rest: Seq<u8>,
    stack: Seq<Frame>,
    k: ParserView,
)
    requires
        stands(s, stack, true, k),
        csv_text::tracked_value(v),
        plain_text(rest),
        mark == 0x2e || mark == 0x65 || mark == 0x45,
    ensures
        stands(
            json_fed(s, numeric::signed_decimal(v as int) + (seq![mark] + rest)),
            stack,
            false,
            k,
        ),
{
    let text = numeric::signed_decimal(v as int);
    let t = json_fed(s, text);
    lemma_number(s, v, stack, k);
    lemma_on(s, text, seq![mark] + rest);
    lemma_on(t, seq![mark], rest);
    lemma_byte(t, mark);
    let u = t.number_ended(mark);
    assert(stands(u, stack, false, k));
    assert(t.json_step(mark) == u.json_outside(mark));
    assert(stands(t.json_step(mark), stack, false, k));
    lemma_word(t.json_step(mark), rest, stack, false, k);
}

/// A colon behind a key: the value of its field is to come, and is foreseen.
proof fn lemma_colon(s: ParserView, base: Seq<Frame>, f: Frame, k: ParserView)
    requires
        stands(s, base.push(f), false, k),
        f.is_object,
        !f.expect_key,
    ensures
        stands(s.json_step(0x3a), base.push(f), true, k),
        ({
            let t = s.json_step(0x3a);
            let u = k.foreseeing(f.key_hash);
            &&& t.np_active == u.np_active
            &&& t.np_active ==> t.np_digits == u.np_digits && t.np_ptr == u.np_ptr && t.num_mag
                == u.num_mag
        }),
{
    assert(s.stack.drop_last().push(f) =~= base.push(f));
}

/// A comma behind a member of an object.
proof fn lemma_next_member(s: ParserView, base: Seq<Frame>, f: Frame, k: ParserView)
    requires
        stands(s, base.push(f), false, k),
        f.is_object,
    ensures
        stands(s.json_step(0x2c), base.push(Frame { expect_key: true, ..f }), false, k),
{
    let g = Frame { expect_key: true, ..f };
    assert(s.stack.drop_last().push(g) =~= base.push(g));
}

/// A comma behind an item of an array.
proof fn lemma_next_item(s: ParserView, base: Seq<Frame>, f: Frame, k: ParserView)
    requires
        stands(s, base.push(f), false, k),
        !f.is_object,
    ensures
        stands(s.json_step(0x2c), base.push(f), true, k),
{
}

/// A closing bracket.
proof fn lemma_close(s: ParserView, c: u8, base: Seq<Frame>, f: Frame, pending: bool, k: ParserView)
    requires
        stands(s, base.push(f), pending, k),
        c == 0x7d || c == 0x5d,
    ensures
        stands(s.json_step(c), base, false, k),
{
    assert(base.push(f).drop_last() =~= base);
}

proof fn lemma_open_object(s: ParserView, stack: Seq<Frame>, pending: bool, k: ParserView)
    requires
        stands(s, stack, pending, k),
    ensures
        stands(
            s.json_step(0x7b),
            stack.push(Frame { is_object: true, key_hash: 0, expect_key: true }),
            false,
            if stack.len() > 0 && stack.last().is_object { k } else { k.row_begun() },
        ),
{
}

proof fn lemma_open_array(s: ParserView, stack: Seq<Frame>, pending: bool, k: ParserView)
    requires
        stands(s, stack, pending, k),
    ensures
        stands(
            s.json_step(0x5b),
            stack.push(Frame { is_object: false, key_hash: 0, expect_key: false }),
            true,
            k,
        ),
{
}

proof fn lemma_value(s: ParserView, v: Json, stack: Seq<Frame>, k: ParserView)
    requires
        valid(v),
        stands(s, stack, true, k),
        !awaits_key(stack),
    ensures
        done(
            json_fed(s, json_text(v)),
            stack,
            taught(k, v, field_in(stack), stack.len() > 0 && stack.last().is_object),
        ),
    decreases v, 0nat,
{
    match v {
        Json::Number(n) => {
            lemma_number(s, n, stack, k);
        },
        Json::Fraction(n, mark, rest) => {
            lemma_fraction(s, n, mark, rest, stack, k);
        },
        Json::Text(body) => {
            lemma_string(s, body, stack, true, k);
        },
        Json::Word(word) => {
            lemma_word(s, word, stack, true, k);
        },
        Json::Array(items) => {
            lemma_array(s, items, stack, true, k);
        },
        Json::Object(ms) => {
            lemma_object(s, ms, stack, true, k);
        },
    }
}

proof fn lemma_array(s: ParserView, items: Seq<Item>, stack: Seq<Frame>, pending: bool, k: ParserView)
    requires
        valid_items(items, items.len()),
        stands(s, stack, pending, k),
    ensures
        stands(
            json_fed(s, json_text(Json::Array(items))),
            stack,
            false,
            items_taught(k, items, items.len()),
        ),
    decreases items, items.len() + 1,
{
    let f = Frame { is_object: false, key_hash: 0, expect_key: false };
    let a = s.json_step(0x5b);
    let text = items_text(items, items.len());
    lemma_open_array(s, stack, pending, k);
    lemma_items(a, items, items.len(), stack, f, k);
    lemma_on(s, seq![0x5bu8], text + seq![0x5du8]);
    lemma_byte(s, 0x5b);
    lemma_on(a, text, seq![0x5du8]);
    let b = json_fed(a, text);
    lemma_byte(b, 0x5d);
    let l = items_taught(k, items, items.len());
    if items.len() == 0 {
        lemma_close(b, 0x5d, stack, f, true, l);
    } else {
        let u = lemma_ended(b, 0x5d, stack.push(f), l);
        lemma_close(u, 0x5d, stack, f, false, l);
    }
}

proof fn lemma_object(s: ParserView, ms: Seq<Member>, stack: Seq<Frame>, pending: bool, k: ParserView)
    requires
        valid_members(ms, ms.len()),
        stands(s, stack, pending, k),
    ensures
        stands(
            json_fed(s, json_text(Json::Object(ms))),
            stack,
            false,
            members_taught(
                if stack.len() > 0 && stack.last().is_object { k } else { k.row_begun() },
                ms,
                ms.len(),
            ),
        ),
    decreases ms, ms.len() + 1,
{
    let f = Frame { is_object: true, key_hash: 0, expect_key: true };
    let k0 = if stack.len() > 0 && stack.last().is_object { k } else { k.row_begun() };
    let a = s.json_step(0x7b);
    let text = members_text(ms, ms.len());
    lemma_open_object(s, stack, pending, k);
    lemma_members(a, ms, ms.len(), stack, f, k0);
    lemma_on(s, seq![0x7bu8], text + seq![0x7du8]);
    lemma_byte(s, 0x7b);
    lemma_on(a, text, seq![0x7du8]);
    let b = json_fed(a, text);
    lemma_byte(b, 0x7d);
    let l = members_taught(k0, ms, ms.len());
    if ms.len() == 0 {
        lemma_close(b, 0x7d, stack, f, false, l);
    } else {
        let g = Frame {
            is_object: true,
            key_hash: field_named(ms[ms.len() - 1].key),
            expect_key: false,
        };
        let u = lemma_ended(b, 0x7d, stack.push(g), l);
        lemma_close(u, 0x7d, stack, g, false, l);
    }
}

proof fn lemma_items(
    s: ParserView,
    items: Seq<Item>,
    n: nat,
    base: Seq<Frame>,
    f: Frame,
    k: ParserView,
)
    requires
        n <= items.len(),
        valid_items(items, n),
        f == (Frame { is_object: false, key_hash: 0, expect_key: false }),
        stands(s, base.push(f), true, k),
    ensures
        n == 0 ==> stands(json_fed(s, items_text(items, n)), base.push(f), true, k),
        n > 0 ==> done(
            json_fed(s, items_text(items, n)),
            base.push(f),
            items_taught(k, items, n),
        ),
    decreases items, n,
{
    if n > 0 {
        let m = (n - 1) as nat;
        let it = items[n - 1];
        let stack = base.push(f);
        let front = items_text(items, m);
        let tail = it.before + (json_text(it.value) + it.after);
        let l = items_taught(k, items, m);
        lemma_items(s, items, m, base, f, k);
        let a = json_fed(s, front);
        lemma_on(s, front, comma(n) + tail);
        lemma_on(a, comma(n), tail);
        let b = json_fed(a, comma(n));
        assert(stands(b, stack, true, l)) by {
            if n > 1 {
                let u = lemma_ended(a, 0x2c, stack, l);
                lemma_next_item(u, base, f, l);
                lemma_byte(a, 0x2c);
            }
        }
        lemma_gaps(b, it.before, stack, true, l);
        lemma_on(b, it.before, json_text(it.value) + it.after);
        let c = json_fed(b, it.before);
        lemma_value(c, it.value, stack, l);
        lemma_on(c, json_text(it.value), it.after);
        lemma_gaps_behind(
            json_fed(c, json_text(it.value)),
            it.after,
            stack,
            items_taught(k, items, n),
        );
    }
}

proof fn lemma_members(
    s: ParserView,
    ms: Seq<Member>,
    n: nat,
    base: Seq<Frame>,
    f: Frame,
    k: ParserView,
)
    requires
        n <= ms.len(),
        valid_members(ms, n),
        f == (Frame { is_object: true, key_hash: 0, expect_key: true }),
        stands(s, base.push(f), false, k),
    ensures
        n == 0 ==> stands(json_fed(s, members_text(ms, n)), base.push(f), false, k),
        n > 0 ==> done(
            json_fed(s, members_text(ms, n)),
            base.push(
                Frame {
                    is_object: true,
                    key_hash: field_named(ms[n - 1].key),
                    expect_key: false,
                },
            ),
            members_taught(k, ms, n),
        ),
    decreases ms, n,
{
    if n > 0 {
        let m = (n - 1) as nat;
        let mem = ms[n - 1];
        let front = members_text(ms, m);
        let l = members_taught(k, ms, m);
        let value = json_text(mem.value) + mem.after;
        let named = seq![0x3au8] + (mem.gap + value);
        let tail = mem.before + (quoted(mem.key) + (mem.mid + named));
        lemma_members(s, ms, m, base, f, k);
        let a = json_fed(s, front);
        lemma_on(s, front, comma(n) + tail);
        lemma_on(a, comma(n), tail);
        let b = json_fed(a, comma(n));
        let h = Frame {
            is_object: true,
            key_hash: if n > 1 { field_named(ms[n - 2].key) } else { 0 },
            expect_key: true,
        };
        assert(stands(b, base.push(h), false, l)) by {
            if n > 1 {
                let g = Frame { expect_key: false, ..h };
                let u = lemma_ended(a, 0x2c, base.push(g), l);
                lemma_next_member(u, base, g, l);
                lemma_byte(a, 0x2c);
            }
        }
        let g = Frame { is_object: true, key_hash: field_named(mem.key), expect_key: false };
        let stack = base.push(g);
        lemma_gaps(b, mem.before, base.push(h), false, l);
        lemma_on(b, mem.before, quoted(mem.key) + (mem.mid + named));
        let c = json_fed(b, mem.before);
        lemma_key(c, mem.key, base, h, l);
        lemma_on(c, quoted(mem.key), mem.mid + named);
        let d = json_fed(c, quoted(mem.key));
        lemma_gaps(d, mem.mid, stack, false, l);
        lemma_on(d, mem.mid, named);
        let e = json_fed(d, mem.mid);
        lemma_colon(e, base, g, l);
        lemma_on(e, seq![0x3au8], mem.gap + value);
        lemma_byte(e, 0x3a);
        let x = e.json_step(0x3a);
        lemma_gaps(x, mem.gap, stack, true, l);
        lemma_on(x, mem.gap, value);
        let y = json_fed(x, mem.gap);
        lemma_value(y, mem.value, stack, l);
        lemma_on(y, json_text(mem.value), mem.after);
        lemma_gaps_behind(
            json_fed(y, json_text(mem.value)),
            mem.after,
            stack,
            members_taught(k, ms, n),
        );
    }
}

/// An object is read as its values, wherever it stands and however it is spaced: every
/// number in it, at any depth, is learned by the field it stands in, and nothing else is
/// learned. Behind it the parser stands where it stood before. Only numbers of more
/// digits than are tracked are left out.
pub proof fn law_json_object_is_read(s: ParserView, ms: Seq<Member>)
    requires
        valid_members(ms, ms.len()),
        !s.text.in_str,
        !s.scan.in_num_value,
    ensures
        ({
            let t = json_fed(s, json_text(Json::Object(ms)));
            let nested = s.stack.len() > 0 && s.stack.last().is_object;
            &&& csv_text::same_knowledge(
                t,
                members_taught(if nested { s } else { s.row_begun() }, ms, ms.len()),
            )
            &&& t.stack == s.stack
            &&& !t.text.in_str
            &&& !t.scan.in_num_value
        }),
{
    lemma_object(s, ms, s.stack, s.json.value_pending, s);
}

/// An array is read as its items, wherever it stands and however it is spaced: its numbers
/// are learned by the field of array items, and numbers in objects in it by their keys.
pub proof fn law_json_array_is_read(s: ParserView, items: Seq<Item>)
    requires
        valid_items(items, items.len()),
        !s.text.in_str,
        !s.scan.in_num_value,
    ensures
        ({
            let t = json_fed(s, json_text(Json::Array(items)));
            &&& csv_text::same_knowledge(t, items_taught(s, items, items.len()))
            &&& t.stack == s.stack
            &&& !t.text.in_str
            &&& !t.scan.in_num_value
        }),
{
    lemma_array(s, items, s.stack, s.json.value_pending, s);
}

/// The value of an array item is foreseen behind the bracket and behind each comma, and
/// still is behind any white space.
pub proof fn law_json_item_is_foreseen(s: ParserView, c: u8, gap: Seq<u8>)
    requires
        !s.text.in_str,
        !s.scan.in_num_value,
        gaps(gap),
        c == 0x5b || c == 0x2c && !s.json.value_pending && s.stack.len() > 0
            && !s.stack.last().is_object,
    ensures
        ({
            let t = json_fed(s, seq![c] + gap);
            let u = s.foreseeing(0xA22A_5151);
            &&& t.json.value_pending
            &&& csv_text::same_knowledge(t, s)
            &&& t.np_active == u.np_active
            &&& t.np_active ==> t.np_digits == u.np_digits && t.np_ptr == u.np_ptr && t.num_mag
                == u.num_mag
        }),
{
    lemma_on(s, seq![c], gap);
    lemma_byte(s, c);
    law_json_gaps_change_nothing(s.json_step(c), gap);
}

/// A record of numbers is a row: its fields learn its values, in their order.
pub proof fn law_json_record_is_a_row(s: ParserView, ms: Seq<Member>, vals: Seq<i64>)
    requires
        valid_members(ms, ms.len()),
        !s.text.in_str,
        !s.scan.in_num_value,
        s.stack.len() == 0 || !s.stack.last().is_object,
        vals.len() == ms.len(),
        forall|i: int| 0 <= i < ms.len() ==> (#[trigger] ms[i]).value == Json::Number(vals[i]),
    ensures
        csv_text::same_knowledge(
            json_fed(s, json_text(Json::Object(ms))),
            columns::read_cells(s, fields_of(ms), vals, ms.len()),
        ),
{
    law_json_object_is_read(s, ms);
    lemma_row(s, ms, vals, ms.len());
}

/// The fields that the members of an object name.
pub open spec fn fields_of(ms: Seq<Member>) -> Seq<u32> {
    Seq::new(ms.len(), |i: int| field_named(ms[i].key))
}

proof fn lemma_row(s: ParserView, ms: Seq<Member>, vals: Seq<i64>, n: nat)
    requires
        n <= ms.len() == vals.len(),
        forall|i: int| 0 <= i < ms.len() ==> (#[trigger] ms[i]).value == Json::Number(vals[i]),
    ensures
        members_taught(s.row_begun(), ms, n) == columns::read_cells(s, fields_of(ms), vals, n),
    decreases n,
{
    if n > 0 {
        lemma_row(s, ms, vals, (n - 1) as nat);
        let k = members_taught(s.row_begun(), ms, (n - 1) as nat);
        assert(ms[n - 1].value == Json::Number(vals[n - 1]));
        assert(fields_of(ms)[n - 1] == field_named(ms[n - 1].key));
        assert(taught(k, ms[n - 1].value, field_named(ms[n - 1].key), true) == k.with_value(
            field_named(ms[n - 1].key),
            vals[n - 1],
        ));
    }
}

/// The spacing of a record makes no difference: with the same keys and values, whatever
/// white space stands around them, the same is learned.
pub proof fn law_json_spacing_is_ignored(s: ParserView, ms: Seq<Member>, spaced: Seq<Member>)
    requires
        valid_members(ms, ms.len()),
        valid_members(spaced, spaced.len()),
        !s.text.in_str,
        !s.scan.in_num_value,
        ms.len() == spaced.len(),
        forall|i: int|
            0 <= i < ms.len() ==> (#[trigger] ms[i]).key == spaced[i].key && ms[i].value
                == spaced[i].value,
    ensures
        csv_text::same_knowledge(
            json_fed(s, json_text(Json::Object(ms))),
            json_fed(s, json_text(Json::Object(spaced))),
        ),
{
    law_json_object_is_read(s, ms);
    law_json_object_is_read(s, spaced);
    let nested = s.stack.len() > 0 && s.stack.last().is_object;
    lemma_same_members(if nested { s } else { s.row_begun() }, ms, spaced, ms.len());
}

proof fn lemma_same_members(k: ParserView, ms: Seq<Member>, spaced: Seq<Member>, n: nat)
    requires
        n <= ms.len() == spaced.len(),
        forall|i: int|
            0 <= i < ms.len() ==> (#[trigger] ms[i]).key == spaced[i].key && ms[i].value
                == spaced[i].value,
    ensures
        members_taught(k, ms, n) == members_taught(k, spaced, n),
    decreases n,
{
    if n > 0 {
        lemma_same_members(k, ms, spaced, (n - 1) as nat);
        assert(ms[n - 1].key == spaced[n - 1].key);
    }
}

/// Behind a key, a colon and white space, the value of the field that the key names is
/// to come, and is foreseen from what is known of the field.
pub proof fn law_json_value_is_foreseen(
    s: ParserView,
    key: Seq<u8>,
    mid: Seq<u8>,
    gap: Seq<u8>,
)
    requires
        s.stack.len() > 0,
        s.stack.last().is_object,
        s.stack.last().expect_key,
        !s.json.value_pending,
        !s.text.in_str,
        !s.scan.in_num_value,
        string_body(key),
        gaps(mid),
        gaps(gap),
    ensures
        ({
            let t = json_fed(s, quoted(key) + (mid + (seq![0x3au8] + gap)));
            let u = s.foreseeing(field_named(key));
            &&& t.json.value_pending
            &&& csv_text::same_knowledge(t, s)
            &&& t.np_active == u.np_active
            &&& t.np_active ==> t.np_digits == u.np_digits && t.np_ptr == u.np_ptr && t.num_mag
                == u.num_mag
        }),
{
    let base = s.stack.drop_last();
    let f = s.stack.last();
    assert(s.stack =~= base.push(f));
    let g = Frame { is_object: true, key_hash: field_named(key), expect_key: false };
    lemma_key(s, key, base, f, s);
    lemma_on(s, quoted(key), mid + (seq![0x3au8] + gap));
    let a = json_fed(s, quoted(key));
    lemma_gaps(a, mid, base.push(g), false, s);
    lemma_on(a, mid, seq![0x3au8] + gap);
    let b = json_fed(a, mid);
    lemma_colon(b, base, g, s);
    lemma_on(b, seq![0x3au8], gap);
    lemma_byte(b, 0x3a);
    law_json_gaps_change_nothing(b.json_step(0x3a), gap);
}

/// A foreseen value that comes true is followed to its last byte: the bytes read so far
/// have been held against it, and the next one is expected.
pub proof fn law_json_forecast_is_followed(s: ParserView, k: nat)
    requires
        s.json.value_pending,
        !s.text.in_str,
        !s.scan.in_num_value,
        s.np_active,
        s.np_ptr == 0,
        1 <= k <= s.np_digits.len(),
        ascii::is_digit(s.np_digits[0]) || s.np_digits[0] == 0x2d,
        forall|i: int| 1 <= i < s.np_digits.len() ==> ascii::is_digit(#[trigger] s.np_digits[i]),
    ensures
        ({
            let t = json_fed(s, s.np_digits.take(k as int));
            &&& t.np_active
            &&& t.np_digits == s.np_digits
            &&& t.np_ptr == k
            &&& t.num_mag == s.num_mag
        }),
    decreases k,
{
    let text = s.np_digits;
    lemma_number_bytes(s, text, k, s.stack, s);
    let m = (k - 1) as nat;
    assert(text.take(k as int).drop_last() =~= text.take(m as int));
    assert(text.take(k as int).last() == text[m as int]);
    if k == 1 {
        assert(text.take(0) =~= Seq::empty());
        assert(json_fed(s, text.take(0)) == s);
    } else {
        lemma_number_bytes(s, text, m, s.stack, s);
        law_json_forecast_is_followed(s, m);
        assert(ascii::is_digit(text[m as int]));
    }
}

} // verus!
