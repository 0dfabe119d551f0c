//! The parser for XML and HTML.

use vstd::prelude::*;
use crate::ascii;
use crate::ascii::{APOSTROPHE, GREATER, LESS, QUOTE, SLASH};
use crate::hashing;
use crate::hashing::SPREAD;
use crate::parser::{XmlState, MAX_ELEMENTS};
use crate::predictor::Predictor;

verus! {

impl Predictor {
    /// A tag ends: it opens an element, closes one, or does neither.
    fn xml_tag_end(&mut self)
        requires
            old(self).parser_inv(),
        ensures
            final(self).parsed_to(old(self), old(self)@.parser.xml_tag_end()),
    {
        self.parser.xml.in_tag = false;
        if self.parser.xml.close {
            let _ = self.parser.elements.pop();
        } else if !self.parser.xml.selfclose && self.parser.elements.len() < MAX_ELEMENTS {
            self.parser.elements.push(self.parser.xml.cur_hash);
        }
    }

    /// An attribute value begins with the quote `c`.
    fn xml_begin_value(&mut self, c: u8)
        requires
            old(self).parser_inv(),
        ensures
            final(self).parsed_to(old(self), old(self)@.parser.xml_value_begun(c)),
    {
        self.parser.xml.in_attr = true;
        self.parser.xml.aq = c;
    }

    /// A slash inside the tag.
    fn xml_slash(&mut self)
        requires
            old(self).parser_inv(),
        ensures
            final(self).parsed_to(old(self), old(self)@.parser.xml_slash()),
    {
        if self.parser.xml.name_started {
            self.parser.xml.selfclose = true;  // <tag .../>
        } else {
            self.parser.xml.close = true;  // </tag>
        }
    }

    /// Another byte of the tag, which may be one of its name.
    fn xml_name_byte(&mut self, c: u8)
        requires
            old(self).parser_inv(),
        ensures
            final(self).parsed_to(old(self), old(self)@.parser.xml_name_byte(c)),
    {
        if self.parser.xml.reading {
            self.parser.xml.cur_hash = hashing::hstep(self.parser.xml.cur_hash, c);
            self.parser.xml.name_started = true;
        }
    }

    /// A byte inside a tag, outside attribute values.
    fn xml_in_tag(&mut self, c: u8)
        requires
            old(self).parser_inv(),
        ensures
            final(self).parsed_to(old(self), old(self)@.parser.xml_in_tag(c)),
    {
        if c == QUOTE || c == APOSTROPHE {
            self.xml_begin_value(c);
            self.parser.text.vpos = 0;
        } else if c == GREATER {
            self.xml_tag_end();
            self.parser.text.vpos = 0;
        } else if c == SLASH {
            self.xml_slash();
            self.advance();
        } else if ascii::blank(c) {
            self.parser.xml.reading = false;  // tag name ended; attributes follow
            self.parser.text.vpos = 0;
        } else {
            self.xml_name_byte(c);
            self.advance();
        }
    }

    /// XML/HTML parser: exposes the current element tag plus parser state
    /// (in tag, in attribute value, in text) as the semantic context, so that each
    /// element's content and attributes are modeled separately. Heuristic, not a
    /// validator: comments, CDATA and processing instructions fall through
    /// harmlessly and deterministically.
    pub fn update_struct_xml(&mut self, c: u8)
        requires
            old(self).parser_inv(),
        ensures
            final(self).parsed_to(old(self), old(self)@.parser.xml_step(c)),
    {
        if self.parser.xml.in_attr {
            self.parser.xml.in_attr = c != self.parser.xml.aq;
            self.advance();
        } else if self.parser.xml.in_tag {
            self.xml_in_tag(c);
        } else if c == LESS {
            let xml = self.parser.xml;
            self.parser.xml = XmlState {
                in_tag: true,
                in_attr: xml.in_attr,
                aq: xml.aq,
                cur_hash: SPREAD,
                reading: true,
                name_started: false,
                close: false,
                selfclose: false,
            };
            self.parser.text.vpos = 0;
        } else if ascii::blank(c) {
            self.parser.text.vpos = 0;
        } else {
            self.advance();
        }
    }
}

} // verus!
