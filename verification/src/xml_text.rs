//! What the XML parser makes of markup: which element a text stands in.

use vstd::prelude::*;
use crate::ascii;
use crate::hashing;
use crate::json_text;
use crate::parser::{ParserView, TextState, XmlState};

verus! {

/// The state after all of `text`.
pub open spec fn xml_fed(s: ParserView, text: Seq<u8>) -> ParserView
    decreases text.len(),
{
    if text.len() == 0 { s } else { xml_fed(s, text.drop_last()).xml_step(text.last()) }
}

/// A byte of a tag that is no quote, ends nothing and closes nothing.
pub open spec fn tag_byte(c: u8) -> bool {
    c != 0x22 && c != 0x27 && c != 0x3e && c != 0x2f
}

/// A name: bytes of a tag without white space.
pub open spec fn is_name(text: Seq<u8>) -> bool {
    &&& text.len() > 0
    &&& forall|i: int|
        0 <= i < text.len() ==> tag_byte(#[trigger] text[i]) && !json_text::is_gap(text[i])
}

/// A part of the attributes: bytes outside quotes, or a value in quotes.
pub enum Piece {
    Plain(Seq<u8>),
    Quoted(u8, Seq<u8>),
}

pub open spec fn piece_text(p: Piece) -> Seq<u8> {
    match p {
        Piece::Plain(text) => text,
        Piece::Quoted(q, text) => seq![q] + (text + seq![q]),
    }
}

pub open spec fn valid_piece(p: Piece) -> bool {
    match p {
        Piece::Plain(text) => forall|i: int| 0 <= i < text.len() ==> tag_byte(#[trigger] text[i]),
        Piece::Quoted(q, text) => (q == 0x22 || q == 0x27) && forall|i: int|
            0 <= i < text.len() ==> #[trigger] text[i] != q,
    }
}

/// The attributes of a tag: nothing, or white space and parts.
pub struct Attributes {
    pub gap: u8,
    pub pieces: Seq<Piece>,
}

pub open spec fn pieces_text(pieces: Seq<Piece>, n: nat) -> Seq<u8>
    decreases n,
{
    if n == 0 {
        Seq::empty()
    } else {
        pieces_text(pieces, (n - 1) as nat) + piece_text(pieces[n - 1])
    }
}

pub open spec fn attributes_text(a: Attributes) -> Seq<u8> {
    if a.pieces.len() == 0 {
        Seq::empty()
    } else {
        seq![a.gap] + pieces_text(a.pieces, a.pieces.len())
    }
}

pub open spec fn valid_attributes(a: Attributes) -> bool {
    &&& json_text::is_gap(a.gap)
    &&& forall|i: int| 0 <= i < a.pieces.len() ==> valid_piece(#[trigger] a.pieces[i])
}

/// What an element is known by.
pub open spec fn name_hash(name: Seq<u8>) -> u32 {
    hashing::hash_bytes(0x9e37_79b1, name)
}

/// The parser stands in text, inside `elements`, and all else is as in `s`.
pub open spec fn in_text(t: ParserView, s: ParserView, elements: Seq<u32>) -> bool {
    &&& !t.xml.in_tag
    &&& !t.xml.in_attr
    &&& t.elements == elements
    &&& others_kept(t, s)
}

/// Nothing has changed but where the XML parser stands.
pub open spec fn others_kept(t: ParserView, s: ParserView) -> bool {
    t == (ParserView {
        text: TextState { vpos: t.text.vpos, ..s.text },
        xml: t.xml,
        elements: t.elements,
        ..s
    })
}

proof fn lemma_on(s: ParserView, a: Seq<u8>, b: Seq<u8>)
    ensures
        xml_fed(s, a + b) == xml_fed(xml_fed(s, a), b),
    decreases b.len(),
{
    if b.len() == 0 {
        assert(a + b =~= a);
    } else {
        assert((a + b).drop_last() =~= a + b.drop_last());
        lemma_on(s, a, b.drop_last());
    }
}

proof fn lemma_byte(s: ParserView, c: u8)
    ensures
        xml_fed(s, seq![c]) == s.xml_step(c),
{
    assert(seq![c].drop_last() =~= Seq::empty());
    assert(xml_fed(s, Seq::empty()) == s);
}

/// Text between tags changes nothing but the position within the token.
pub proof fn law_xml_text_is_passed_over(s: ParserView, text: Seq<u8>)
    requires
        !s.xml.in_tag,
        !s.xml.in_attr,
        forall|i: int| 0 <= i < text.len() ==> #[trigger] text[i] != 0x3c,
    ensures
        xml_fed(s, text) == (ParserView {
            text: TextState { vpos: xml_fed(s, text).text.vpos, ..s.text },
            ..s
        }),
    decreases text.len(),
{
    if text.len() > 0 {
        let front = text.drop_last();
        assert forall|i: int| 0 <= i < front.len() implies #[trigger] front[i] != 0x3c by {
            assert(front[i] == text[i]);
        }
        law_xml_text_is_passed_over(s, front);
        assert(text[text.len() - 1] != 0x3c);
    }
}

/// Inside a tag, with the name read so far.
spec fn in_name(t: ParserView, s: ParserView, hash: u32, started: bool, close: bool) -> bool {
    &&& t.xml == (XmlState {
        in_tag: true,
        in_attr: false,
        aq: t.xml.aq,
        cur_hash: hash,
        reading: true,
        name_started: started,
        close,
        selfclose: false,
    })
    &&& t.elements == s.elements
    &&& others_kept(t, s)
}

proof fn lemma_name(t: ParserView, s: ParserView, name: Seq<u8>, hash: u32, close: bool)
    requires
        in_name(t, s, hash, false, close),
        is_name(name) || name.len() == 0,
    ensures
        in_name(
            xml_fed(t, name),
            s,
            hashing::hash_bytes(hash, name),
            name.len() > 0,
            close,
        ),
    decreases name.len(),
{
    if name.len() > 0 {
        let front = name.drop_last();
        assert forall|i: int| 0 <= i < front.len() implies tag_byte(#[trigger] front[i])
            && !json_text::is_gap(front[i]) by {
            assert(front[i] == name[i]);
        }
        lemma_name(t, s, front, hash, close);
        let c = name[name.len() - 1];
        assert(tag_byte(c) && !json_text::is_gap(c));
    }
}

/// Behind the name of a tag.
spec fn behind_name(t: ParserView, s: ParserView, hash: u32, close: bool) -> bool {
    &&& t.xml == (XmlState {
        in_tag: true,
        in_attr: false,
        aq: t.xml.aq,
        cur_hash: hash,
        reading: false,
        name_started: true,
        close,
        selfclose: false,
    })
    &&& t.elements == s.elements
    &&& others_kept(t, s)
}

proof fn lemma_plain(t: ParserView, s: ParserView, text: Seq<u8>, hash: u32, close: bool)
    requires
        behind_name(t, s, hash, close),
        forall|i: int| 0 <= i < text.len() ==> tag_byte(#[trigger] text[i]),
    ensures
        behind_name(xml_fed(t, text), s, hash, close),
    decreases text.len(),
{
    if text.len() > 0 {
        let front = text.drop_last();
        assert forall|i: int| 0 <= i < front.len() implies tag_byte(#[trigger] front[i]) by {
            assert(front[i] == text[i]);
        }
        lemma_plain(t, s, front, hash, close);
        assert(tag_byte(text[text.len() - 1]));
    }
}

/// An attribute value is passed over, with whatever brackets stand in it, up to the
/// quote that began it.
pub proof fn law_xml_value_is_passed_over(s: ParserView, text: Seq<u8>)
    requires
        s.xml.in_attr,
        forall|i: int| 0 <= i < text.len() ==> #[trigger] text[i] != s.xml.aq,
    ensures
        xml_fed(s, text) == (ParserView {
            text: TextState { vpos: xml_fed(s, text).text.vpos, ..s.text },
            ..s
        }),
    decreases text.len(),
{
    if text.len() > 0 {
        let front = text.drop_last();
        assert forall|i: int| 0 <= i < front.len() implies #[trigger] front[i] != s.xml.aq by {
            assert(front[i] == text[i]);
        }
        law_xml_value_is_passed_over(s, front);
        assert(text[text.len() - 1] != s.xml.aq);
    }
}

proof fn lemma_pieces(t: ParserView, s: ParserView, ps: Seq<Piece>, n: nat, hash: u32, close: bool)
    requires
        behind_name(t, s, hash, close),
        n <= ps.len(),
        forall|i: int| 0 <= i < ps.len() ==> valid_piece(#[trigger] ps[i]),
    ensures
        behind_name(xml_fed(t, pieces_text(ps, n)), s, hash, close),
    decreases n,
{
    if n > 0 {
        let m = (n - 1) as nat;
        let front = pieces_text(ps, m);
        lemma_pieces(t, s, ps, m, hash, close);
        let a = xml_fed(t, front);
        lemma_on(t, front, piece_text(ps[n - 1]));
        assert(valid_piece(ps[n - 1]));
        match ps[n - 1] {
            Piece::Plain(text) => {
                lemma_plain(a, s, text, hash, close);
            },
            Piece::Quoted(q, text) => {
                let b = a.xml_step(q);
                let c = xml_fed(b, text);
                lemma_on(a, seq![q], text + seq![q]);
                lemma_byte(a, q);
                lemma_on(b, text, seq![q]);
                lemma_byte(c, q);
                law_xml_value_is_passed_over(b, text);
            },
        }
    }
}

/// The name of a tag and its attributes, up to where it closes.
proof fn lemma_inside(
    t: ParserView,
    s: ParserView,
    name: Seq<u8>,
    a: Attributes,
    hash: u32,
    close: bool,
)
    requires
        in_name(t, s, hash, false, close),
        is_name(name),
        valid_attributes(a),
    ensures
        ({
            let u = xml_fed(t, name + attributes_text(a));
            &&& u.xml.in_tag
            &&& !u.xml.in_attr
            &&& u.xml.cur_hash == hashing::hash_bytes(hash, name)
            &&& u.xml.name_started
            &&& u.xml.close == close
            &&& !u.xml.selfclose
            &&& u.elements == s.elements
            &&& others_kept(u, s)
        }),
{
    lemma_name(t, s, name, hash, close);
    lemma_on(t, name, attributes_text(a));
    let b = xml_fed(t, name);
    if a.pieces.len() > 0 {
        let text = pieces_text(a.pieces, a.pieces.len());
        lemma_on(b, seq![a.gap], text);
        lemma_byte(b, a.gap);
        assert(ascii::is_blank(a.gap));
        let c = b.xml_step(a.gap);
        lemma_pieces(c, s, a.pieces, a.pieces.len(), hashing::hash_bytes(hash, name), close);
    }
}

proof fn lemma_less(s: ParserView)
    requires
        !s.xml.in_tag,
        !s.xml.in_attr,
    ensures
        in_name(s.xml_step(0x3c), s, 0x9e37_79b1, false, false),
{
}

/// The text of an opening tag.
pub open spec fn open_text(name: Seq<u8>, a: Attributes) -> Seq<u8> {
    seq![0x3cu8] + ((name + attributes_text(a)) + seq![0x3eu8])
}

/// The text of a tag that closes itself.
pub open spec fn empty_text(name: Seq<u8>, a: Attributes) -> Seq<u8> {
    seq![0x3cu8] + ((name + attributes_text(a)) + seq![0x2fu8, 0x3e])
}

/// The text of a closing tag.
pub open spec fn close_text(name: Seq<u8>) -> Seq<u8> {
    seq![0x3cu8] + (seq![0x2fu8] + (name + seq![0x3eu8]))
}

/// An opening tag, whatever its attributes, leads into the element of its name. Only
/// elements beyond those that are remembered are left out.
pub proof fn law_xml_tag_opens(s: ParserView, name: Seq<u8>, a: Attributes)
    requires
        !s.xml.in_tag,
        !s.xml.in_attr,
        is_name(name),
        valid_attributes(a),
        s.elements.len() < 64,
    ensures
        in_text(xml_fed(s, open_text(name, a)), s, s.elements.push(name_hash(name))),
{
    let text = name + attributes_text(a);
    lemma_less(s);
    lemma_on(s, seq![0x3cu8], text + seq![0x3eu8]);
    lemma_byte(s, 0x3c);
    let b = s.xml_step(0x3c);
    lemma_inside(b, s, name, a, 0x9e37_79b1, false);
    lemma_on(b, text, seq![0x3eu8]);
    lemma_byte(xml_fed(b, text), 0x3e);
}

/// A tag that closes itself leads nowhere.
pub proof fn law_xml_empty_tag_is_passed_over(s: ParserView, name: Seq<u8>, a: Attributes)
    requires
        !s.xml.in_tag,
        !s.xml.in_attr,
        is_name(name),
        valid_attributes(a),
    ensures
        in_text(xml_fed(s, empty_text(name, a)), s, s.elements),
{
    let text = name + attributes_text(a);
    lemma_less(s);
    lemma_on(s, seq![0x3cu8], text + seq![0x2fu8, 0x3e]);
    lemma_byte(s, 0x3c);
    let b = s.xml_step(0x3c);
    lemma_inside(b, s, name, a, 0x9e37_79b1, false);
    lemma_on(b, text, seq![0x2fu8, 0x3e]);
    let c = xml_fed(b, text);
    assert(seq![0x2fu8, 0x3e] =~= seq![0x2fu8] + seq![0x3eu8]);
    lemma_on(c, seq![0x2fu8], seq![0x3eu8]);
    lemma_byte(c, 0x2f);
    lemma_byte(c.xml_step(0x2f), 0x3e);
}

/// A closing tag leads out of the innermost element.
pub proof fn law_xml_tag_closes(s: ParserView, name: Seq<u8>)
    requires
        !s.xml.in_tag,
        !s.xml.in_attr,
        is_name(name),
    ensures
        in_text(
            xml_fed(s, close_text(name)),
            s,
            if s.elements.len() > 0 { s.elements.drop_last() } else { s.elements },
        ),
{
    lemma_less(s);
    let tail = name + seq![0x3eu8];
    lemma_on(s, seq![0x3cu8], seq![0x2fu8] + tail);
    lemma_byte(s, 0x3c);
    let b = s.xml_step(0x3c);
    lemma_on(b, seq![0x2fu8], tail);
    lemma_byte(b, 0x2f);
    let c = b.xml_step(0x2f);
    assert(in_name(c, s, 0x9e37_79b1, false, true));
    lemma_name(c, s, name, 0x9e37_79b1, true);
    lemma_on(c, name, seq![0x3eu8]);
    lemma_byte(xml_fed(c, name), 0x3e);
}

/// A node of a document.
pub enum Node {
    Text(Seq<u8>),
    Empty(Seq<u8>, Attributes),
    Element(Seq<u8>, Attributes, Seq<Node>),
}

pub open spec fn node_text(v: Node) -> Seq<u8>
    decreases v, 0nat,
{
    match v {
        Node::Text(text) => text,
        Node::Empty(name, a) => empty_text(name, a),
        Node::Element(name, a, nodes) => open_text(name, a) + (nodes_text(nodes, nodes.len())
            + close_text(name)),
    }
}

pub open spec fn nodes_text(nodes: Seq<Node>, n: nat) -> Seq<u8>
    decreases nodes, n,
{
    if n == 0 || n > nodes.len() {
        Seq::empty()
    } else {
        nodes_text(nodes, (n - 1) as nat) + node_text(nodes[n - 1])
    }
}

/// The parts of a node are what they should be, and it is not nested deeper than is
/// remembered.
pub open spec fn valid(v: Node, depth: nat) -> bool
    decreases v, 0nat,
{
    match v {
        Node::Text(text) => forall|i: int| 0 <= i < text.len() ==> #[trigger] text[i] != 0x3c,
        Node::Empty(name, a) => is_name(name) && valid_attributes(a),
        Node::Element(name, a, nodes) => is_name(name) && valid_attributes(a) && depth < 64
            && valid_nodes(nodes, nodes.len(), depth + 1),
    }
}

pub open spec fn valid_nodes(nodes: Seq<Node>, n: nat, depth: nat) -> bool
    decreases nodes, n,
{
    if n == 0 || n > nodes.len() {
        n == 0
    } else {
        valid_nodes(nodes, (n - 1) as nat, depth) && valid(nodes[n - 1], depth)
    }
}

proof fn lemma_node(t: ParserView, s: ParserView, v: Node, elements: Seq<u32>)
    requires
        in_text(t, s, elements),
        valid(v, elements.len()),
    ensures
        in_text(xml_fed(t, node_text(v)), s, elements),
    decreases v, 0nat,
{
    match v {
        Node::Text(text) => {
            law_xml_text_is_passed_over(t, text);
        },
        Node::Empty(name, a) => {
            law_xml_empty_tag_is_passed_over(t, name, a);
        },
        Node::Element(name, a, nodes) => {
            let inner = elements.push(name_hash(name));
            law_xml_tag_opens(t, name, a);
            let b = xml_fed(t, open_text(name, a));
            let text = nodes_text(nodes, nodes.len());
            lemma_on(t, open_text(name, a), text + close_text(name));
            lemma_nodes(b, s, nodes, nodes.len(), inner);
            lemma_on(b, text, close_text(name));
            let c = xml_fed(b, text);
            law_xml_tag_closes(c, name);
            assert(inner.drop_last() =~= elements);
        },
    }
}

proof fn lemma_nodes(t: ParserView, s: ParserView, nodes: Seq<Node>, n: nat, elements: Seq<u32>)
    requires
        in_text(t, s, elements),
        n <= nodes.len(),
        valid_nodes(nodes, n, elements.len()),
    ensures
        in_text(xml_fed(t, nodes_text(nodes, n)), s, elements),
    decreases nodes, n,
{
    if n > 0 {
        let m = (n - 1) as nat;
        lemma_nodes(t, s, nodes, m, elements);
        lemma_on(t, nodes_text(nodes, m), node_text(nodes[n - 1]));
        lemma_node(xml_fed(t, nodes_text(nodes, m)), s, nodes[n - 1], elements);
    }
}

/// A node, with all elements in it at any depth that is remembered, leads back to where
/// it began.
pub proof fn law_xml_node_is_undone(s: ParserView, v: Node)
    requires
        !s.xml.in_tag,
        !s.xml.in_attr,
        valid(v, s.elements.len()),
    ensures
        in_text(xml_fed(s, node_text(v)), s, s.elements),
{
    lemma_node(s, s, v, s.elements);
}

/// Behind an opening tag and any number of nodes, the text stands in the element that
/// the tag names.
pub proof fn law_xml_text_stands_in_its_element(
    s: ParserView,
    name: Seq<u8>,
    a: Attributes,
    nodes: Seq<Node>,
)
    requires
        !s.xml.in_tag,
        !s.xml.in_attr,
        is_name(name),
        valid_attributes(a),
        s.elements.len() < 64,
        valid_nodes(nodes, nodes.len(), s.elements.len() + 1),
    ensures
        in_text(
            xml_fed(s, open_text(name, a) + nodes_text(nodes, nodes.len())),
            s,
            s.elements.push(name_hash(name)),
        ),
{
    law_xml_tag_opens(s, name, a);
    lemma_on(s, open_text(name, a), nodes_text(nodes, nodes.len()));
    lemma_nodes(
        xml_fed(s, open_text(name, a)),
        s,
        nodes,
        nodes.len(),
        s.elements.push(name_hash(name)),
    );
}

/// A quote inside a tag begins an attribute value, and the same quote ends it.
pub proof fn law_xml_quotes_match(s: ParserView, q: u8, text: Seq<u8>, n: int)
    requires
        s.xml.in_tag,
        !s.xml.in_attr,
        q == 0x22 || q == 0x27,
        forall|i: int| 0 <= i < text.len() ==> #[trigger] text[i] != q,
        0 <= n <= text.len(),
    ensures
        xml_fed(s, seq![q] + text.take(n)).xml.in_attr,
        !xml_fed(s, seq![q] + (text + seq![q])).xml.in_attr,
        xml_fed(s, seq![q] + (text + seq![q])).xml.in_tag,
        xml_fed(s, seq![q] + (text + seq![q])).elements == s.elements,
{
    let b = s.xml_step(q);
    lemma_byte(s, q);
    lemma_on(s, seq![q], text.take(n));
    assert forall|i: int| 0 <= i < text.take(n).len() implies #[trigger] text.take(n)[i] != q by {
        assert(text.take(n)[i] == text[i]);
    }
    law_xml_value_is_passed_over(b, text.take(n));
    lemma_on(s, seq![q], text + seq![q]);
    lemma_on(b, text, seq![q]);
    law_xml_value_is_passed_over(b, text);
    lemma_byte(xml_fed(b, text), q);
}

} // verus!
