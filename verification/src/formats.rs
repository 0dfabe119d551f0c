//! Which data is of which format, said of its bytes.

use vstd::prelude::*;
use crate::ascii;
use crate::mode;
use crate::mode::Mode;

verus! {

/// The bytes that decide: the first 65536, or all.
pub open spec fn deciding(data: Seq<u8>) -> Seq<u8> {
    if data.len() <= 65536 { data } else { data.subrange(0, 65536) }
}

/// Space, tab, line feed, form feed, carriage return.
pub open spec fn is_white(c: u8) -> bool {
    c == 0x20 || c == 0x09 || c == 0x0a || c == 0x0c || c == 0x0d
}

/// The byte at `i` is `b`, and there is only white space before it.
pub open spec fn opens_at(s: Seq<u8>, b: u8, i: int) -> bool {
    &&& 0 <= i < s.len()
    &&& s[i] == b
    &&& forall|j: int| 0 <= j < i ==> is_white(#[trigger] s[j])
}

/// `b` is the first byte that is not white space.
pub open spec fn opens_with(s: Seq<u8>, b: u8) -> bool {
    exists|i: int| opens_at(s, b, i)
}

/// `word` stands in `s`, from `i` on.
pub open spec fn holds_at(s: Seq<u8>, word: Seq<u8>, i: int) -> bool {
    &&& 0 <= i <= s.len() - word.len()
    &&& forall|j: int| 0 <= j < word.len() ==> s[i + j] == #[trigger] word[j]
}

/// `word` stands somewhere in `s`.
pub open spec fn holds(s: Seq<u8>, word: Seq<u8>) -> bool {
    exists|i: int| holds_at(s, word, i)
}

/// How often `b` stands in `s`.
pub open spec fn times(s: Seq<u8>, b: u8) -> nat {
    s.to_multiset().count(b)
}

/// Opens with a brace or a bracket, and has a brace for every two lines.
pub open spec fn like_json(s: Seq<u8>) -> bool {
    (opens_with(s, 0x7b) || opens_with(s, 0x5b)) && 2 * times(s, 0x7b) >= times(s, 0x0a) + 1
}

/// Opens with `<`, and holds `</`, `<?xml` or `/>`.
pub open spec fn like_xml(s: Seq<u8>) -> bool {
    opens_with(s, 0x3c) && (holds(s, seq![0x3c, 0x2f]) || holds(
        s,
        seq![0x3c, 0x3f, 0x78, 0x6d, 0x6c],
    ) || holds(s, seq![0x2f, 0x3e]))
}

/// Holds `INSERT INTO` or `CREATE TABLE`.
pub open spec fn like_sql(s: Seq<u8>) -> bool {
    holds(s, seq![0x49, 0x4e, 0x53, 0x45, 0x52, 0x54, 0x20, 0x49, 0x4e, 0x54, 0x4f]) || holds(
        s,
        seq![0x43, 0x52, 0x45, 0x41, 0x54, 0x45, 0x20, 0x54, 0x41, 0x42, 0x4c, 0x45],
    )
}

/// Has a comma for every line.
pub open spec fn like_csv(s: Seq<u8>) -> bool {
    times(s, 0x2c) >= times(s, 0x0a) + 1
}

proof fn lemma_times(s: Seq<u8>, b: u8)
    ensures
        mode::count_of(s, b) == times(s, b),
    decreases s.len(),
{
    s.to_multiset_ensures();
    if s.len() > 0 {
        lemma_times(s.drop_last(), b);
        s.drop_last().to_multiset_ensures();
        assert(s =~= s.drop_last().push(s.last()));
    }
}

proof fn lemma_opens(s: Seq<u8>, b: u8)
    requires
        !is_white(b),
    ensures
        mode::first_visible(s) == Some(b) <==> opens_with(s, b),
    decreases s.len(),
{
    if s.len() > 0 {
        if ascii::is_space(s[0]) {
            let t = s.skip(1);
            lemma_opens(t, b);
            if opens_with(t, b) {
                let i = choose|i: int| opens_at(t, b, i);
                assert forall|j: int| 0 <= j < i + 1 implies is_white(#[trigger] s[j]) by {
                    if j > 0 {
                        assert(s[j] == t[j - 1]);
                    }
                }
                assert(opens_at(s, b, i + 1));
            }
            if opens_with(s, b) {
                let i = choose|i: int| opens_at(s, b, i);
                assert forall|j: int| 0 <= j < i - 1 implies is_white(#[trigger] t[j]) by {
                    assert(t[j] == s[j + 1]);
                }
                assert(opens_at(t, b, i - 1));
            }
        } else {
            if s[0] == b {
                assert(opens_at(s, b, 0));
            }
            if opens_with(s, b) {
                let i = choose|i: int| opens_at(s, b, i);
                if i > 0 {
                    assert(is_white(s[0]));
                }
            }
        }
    }
}

/// A word is found where it stands, and nowhere else.
pub proof fn law_word_is_found(s: Seq<u8>, word: Seq<u8>)
    ensures
        mode::occurs(s, word) <==> holds(s, word),
{
    if mode::occurs(s, word) {
        let i = choose|i: int| mode::occurs_at(s, word, i);
        assert forall|j: int| 0 <= j < word.len() implies s[i + j] == #[trigger] word[j] by {
            assert(s.subrange(i, i + word.len())[j] == word[j]);
        }
        assert(holds_at(s, word, i));
    }
    if holds(s, word) {
        let i = choose|i: int| holds_at(s, word, i);
        assert(s.subrange(i, i + word.len()) =~= word);
        assert(mode::occurs_at(s, word, i));
    }
}

proof fn lemma_likeness(s: Seq<u8>)
    ensures
        mode::format_of(s) == (if like_json(s) {
            Mode::Json
        } else if like_xml(s) {
            Mode::Xml
        } else if like_sql(s) {
            Mode::Sql
        } else if like_csv(s) {
            Mode::Csv
        } else {
            Mode::Generic
        }),
{
    lemma_times(s, 0x0a);
    lemma_times(s, 0x2c);
    lemma_times(s, 0x7b);
    lemma_opens(s, 0x7b);
    lemma_opens(s, 0x5b);
    lemma_opens(s, 0x3c);
    law_word_is_found(s, seq![0x3c, 0x2f]);
    law_word_is_found(s, seq![0x3c, 0x3f, 0x78, 0x6d, 0x6c]);
    law_word_is_found(s, seq![0x2f, 0x3e]);
    law_word_is_found(s, seq![0x49, 0x4e, 0x53, 0x45, 0x52, 0x54, 0x20, 0x49, 0x4e, 0x54, 0x4f]);
    law_word_is_found(s, seq![0x43, 0x52, 0x45, 0x41, 0x54, 0x45, 0x20, 0x54, 0x41, 0x42, 0x4c, 0x45]);
}

/// JSON is what opens with a brace or a bracket and has a brace for every two lines,
/// whatever else it holds.
pub proof fn law_json_is_known(data: Seq<u8>)
    ensures
        mode::format_of(mode::sample_of(data)) == Mode::Json <==> like_json(deciding(data)),
{
    assert(mode::sample_of(data) =~= deciding(data));
    lemma_likeness(deciding(data));
}

/// XML is what opens with `<` and has a tag that closes or a declaration, whatever its
/// commas, lines and words. (What opens with `<` does not open with a brace.)
pub proof fn law_xml_is_known(data: Seq<u8>)
    ensures
        mode::format_of(mode::sample_of(data)) == Mode::Xml <==> like_xml(deciding(data)),
{
    let s = deciding(data);
    assert(mode::sample_of(data) =~= s);
    lemma_likeness(s);
    if opens_with(s, 0x3c) {
        lemma_opens(s, 0x3c);
        lemma_opens(s, 0x7b);
        lemma_opens(s, 0x5b);
    }
}

/// SQL is what is neither and holds a statement of a dump, whatever its commas.
pub proof fn law_sql_is_known(data: Seq<u8>)
    ensures
        mode::format_of(mode::sample_of(data)) == Mode::Sql <==> like_sql(deciding(data))
            && !like_json(deciding(data)) && !like_xml(deciding(data)),
{
    assert(mode::sample_of(data) =~= deciding(data));
    lemma_likeness(deciding(data));
}

/// CSV is what is none of these and has a comma for every line.
pub proof fn law_csv_is_known(data: Seq<u8>)
    ensures
        mode::format_of(mode::sample_of(data)) == Mode::Csv <==> like_csv(deciding(data))
            && !like_json(deciding(data)) && !like_xml(deciding(data)) && !like_sql(deciding(data)),
{
    assert(mode::sample_of(data) =~= deciding(data));
    lemma_likeness(deciding(data));
}

/// All other data is generic.
pub proof fn law_generic_is_the_rest(data: Seq<u8>)
    ensures
        mode::format_of(mode::sample_of(data)) == Mode::Generic <==> !like_csv(deciding(data))
            && !like_json(deciding(data)) && !like_xml(deciding(data)) && !like_sql(deciding(data)),
{
    assert(mode::sample_of(data) =~= deciding(data));
    lemma_likeness(deciding(data));
}

/// Only the first 65536 bytes decide: what comes behind them changes nothing.
pub proof fn law_only_the_beginning_decides(data: Seq<u8>, more: Seq<u8>)
    requires
        data.len() >= 65536,
    ensures
        mode::format_of(mode::sample_of(data + more)) == mode::format_of(mode::sample_of(data)),
{
    assert(mode::sample_of(data + more) =~= mode::sample_of(data));
}

/// The bytes that stand for the formats in a header, and what any other byte stands for.
pub proof fn law_format_bytes(b: u8)
    ensures
        Mode::Generic.code() == 0,
        Mode::Json.code() == 1,
        Mode::Csv.code() == 2,
        Mode::Sql.code() == 3,
        Mode::Xml.code() == 4,
        Mode::of_code(1) == Mode::Json,
        Mode::of_code(2) == Mode::Csv,
        Mode::of_code(3) == Mode::Sql,
        Mode::of_code(4) == Mode::Xml,
        b == 0 || b > 4 ==> Mode::of_code(b) == Mode::Generic,
{
}

} // verus!
