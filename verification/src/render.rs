//! The renderer: from the tree of a note and the buffer it was parsed from
//! to HTML. Nothing is escaped: what the buffer holds goes out as it is.

use crate::boundaries::{element_fits, note_fits, paragraph_fits, slice, slice_of};
use crate::error::JustTextError;
use crate::parser::{agrees, parse, parse_of, Note, Paragraph, TextElement};
use crate::runs::run_len;
use vstd::prelude::*;
use vstd::string::StringExecFns;
use vstd::utf8::encode_utf8;

verus! {

/// Whether `c` has the Unicode property `White_Space`: what
/// `char::is_whitespace` tells of it.
pub uninterp spec fn white_space(c: char) -> bool;

/// `text` without the white space at its start and at its end.
pub open spec fn trimmed(text: Seq<char>) -> Seq<char> {
    let leading = run_len(text, 0, |c: char| white_space(c));
    let trailing = run_len(text.reverse(), 0, |c: char| white_space(c));
    if leading + trailing >= text.len() {
        Seq::empty()
    } else {
        text.subrange(leading as int, text.len() - trailing)
    }
}

/// `str::trim`, which hands out the part of `text` that is left when the
/// characters with the property `White_Space` are taken from its start and
/// from its end. The contract says so over `white_space`; nothing is
/// claimed about which characters have the property.
#[verifier::external_body]
fn trim<'a>(text: &'a str) -> (inner: &'a str)
    ensures
        inner@ == trimmed(text@),
        inner@.len() > 0 ==> !white_space(inner@.first()) && !white_space(inner@.last()),
{
    text.trim()
}

/// The HTML of one element: text as it stands, a link as an anchor, code
/// trimmed and wrapped.
pub open spec fn element_html(bytes: Seq<u8>, element: TextElement) -> Seq<char> {
    match element {
        TextElement::Text(span) => slice_of(bytes, span),
        TextElement::Link { title, href } => "<a href=\""@ + slice_of(bytes, href) + "\">"@
            + slice_of(bytes, title) + "</a>"@,
        TextElement::Mono(span) => "<span class=\"mono\">"@ + trimmed(slice_of(bytes, span))
            + "</span>"@,
        TextElement::BlockMono(span) => "<pre>"@ + trimmed(slice_of(bytes, span)) + "</pre>"@,
    }
}

/// The HTML of the elements of a paragraph: each element followed by one
/// space.
pub open spec fn paragraph_html(bytes: Seq<u8>, parts: Seq<TextElement>) -> Seq<char>
    decreases parts.len(),
{
    if parts.len() == 0 {
        Seq::empty()
    } else {
        paragraph_html(bytes, parts.drop_last()) + element_html(bytes, parts.last()) + " "@
    }
}

/// The HTML of a note: each paragraph between `<p>` and `</p>`.
pub open spec fn note_html(bytes: Seq<u8>, paragraphs: Seq<Seq<TextElement>>) -> Seq<char>
    decreases paragraphs.len(),
{
    if paragraphs.len() == 0 {
        Seq::empty()
    } else {
        note_html(bytes, paragraphs.drop_last()) + "<p>"@ + paragraph_html(
            bytes,
            paragraphs.last(),
        ) + "</p>"@
    }
}

impl TextElement {
    /// The HTML of this element, cut out of `content`.
    pub fn resolve(&self, content: &str) -> (html: String)
        requires
            element_fits(encode_utf8(content@), *self),
        ensures
            html@ == element_html(encode_utf8(content@), *self),
    {
        let mut html = String::new();
        match self {
            TextElement::Text(span) => {
                html.append(slice(content, *span));
            },
            TextElement::Link { title, href } => {
                html.append("<a href=\"");
                html.append(slice(content, *href));
                html.append("\">");
                html.append(slice(content, *title));
                html.append("</a>");
            },
            TextElement::Mono(span) => {
                html.append("<span class=\"mono\">");
                html.append(trim(slice(content, *span)));
                html.append("</span>");
            },
            TextElement::BlockMono(span) => {
                html.append("<pre>");
                html.append(trim(slice(content, *span)));
                html.append("</pre>");
            },
        }
        html
    }
}

impl Paragraph {
    /// The HTML of the elements of this paragraph, cut out of `content`.
    pub fn resolve(&self, content: &str) -> (html: String)
        requires
            paragraph_fits(encode_utf8(content@), self@),
        ensures
            html@ == paragraph_html(encode_utf8(content@), self@),
    {
        let mut html = String::new();
        let mut i: usize = 0;
        while i < self.parts.len()
            invariant
                i <= self.parts.len(),
                paragraph_fits(encode_utf8(content@), self@),
                html@ == paragraph_html(encode_utf8(content@), self@.take(i as int)),
            decreases self.parts.len() - i,
        {
            let part = self.parts[i].resolve(content);
            proof {
                assert(self@.take(i + 1).drop_last() =~= self@.take(i as int));
            }
            html.append(part.as_str());
            html.append(" ");
            i = i + 1;
        }
        proof {
            assert(self@.take(i as int) =~= self@);
        }
        html
    }
}

impl Note {
    /// The HTML of this note, cut out of `content`, the buffer that the
    /// note was parsed from.
    pub fn resolve(&self, content: &str) -> (html: String)
        requires
            note_fits(encode_utf8(content@), self@),
        ensures
            html@ == note_html(encode_utf8(content@), self@),
    {
        let mut html = String::new();
        let mut i: usize = 0;
        while i < self.paragraphs.len()
            invariant
                i <= self.paragraphs.len(),
                note_fits(encode_utf8(content@), self@),
                html@ == note_html(encode_utf8(content@), self@.take(i as int)),
            decreases self.paragraphs.len() - i,
        {
            proof {
                assert(self@[i as int] == self.paragraphs[i as int]@);
                assert(self@.take(i + 1).drop_last() =~= self@.take(i as int));
            }
            let paragraph = self.paragraphs[i].resolve(content);
            html.append("<p>");
            html.append(paragraph.as_str());
            html.append("</p>");
            i = i + 1;
        }
        proof {
            assert(self@.take(i as int) =~= self@);
        }
        html
    }
}

/// What compiling the buffer `bytes` gives: the HTML of the note in it, or
/// the message of the first failure of the parse.
pub open spec fn compile_of(bytes: Seq<u8>) -> Result<Seq<char>, Seq<char>> {
    match parse_of(bytes) {
        Ok(paragraphs) => Ok(note_html(bytes, paragraphs)),
        Err(message) => Err(message),
    }
}

/// Compiles the note in `input` to HTML: parses it and renders the tree
/// against `input`. A note that does not parse gives no HTML at all.
pub fn compile<'a>(input: &'a str) -> (result: Result<String, JustTextError<'a>>)
    ensures
        agrees(result, compile_of(encode_utf8(input@))),
{
    match parse(input) {
        Ok(note) => Ok(note.resolve(input)),
        Err(error) => Err(error),
    }
}

} // verus!
