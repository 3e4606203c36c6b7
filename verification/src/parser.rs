//! The parser: from tokens to the tree of a note.

use crate::boundaries::{element_fits, note_fits, paragraph_fits, placed};
use crate::error::JustTextError;
use crate::grammar::{
    block_mono_of, code_of, element_of, ends_text, is_link, lemma_code_fits,
    lemma_element_consumes, lemma_element_fits, lemma_link_fits, lemma_note_consumes_all,
    lemma_note_fits,
    lemma_paragraph_consumes, lemma_paragraph_fits, lemma_text_fits, link_fault, link_of, mono_of,
    note_of, paragraph_of, text_of,
};
use crate::lexer::{tokens_of, Lexer, Peekable, Span, Token, TokenKind};
use crate::runs::lemma_run_len_unique;
use vstd::prelude::*;
use vstd::utf8::encode_utf8;

verus! {

/// One inline element of a paragraph. Its spans are intervals of the buffer
/// that the note was parsed from.
#[derive(Debug, PartialEq, Clone, Copy)]
pub enum TextElement {
    Text(Span),
    Link { title: Span, href: Span },
    Mono(Span),
    BlockMono(Span),
}

impl View for TextElement {
    type V = TextElement;

    open spec fn view(&self) -> TextElement {
        *self
    }
}

/// A paragraph: its inline elements, in order.
#[derive(Debug, PartialEq)]
pub struct Paragraph {
    pub parts: Vec<TextElement>,
}

impl View for Paragraph {
    type V = Seq<TextElement>;

    open spec fn view(&self) -> Seq<TextElement> {
        self.parts@
    }
}

/// A note: its paragraphs, in order.
#[derive(Debug, PartialEq)]
pub struct Note {
    pub paragraphs: Vec<Paragraph>,
}

impl View for Note {
    type V = Seq<Seq<TextElement>>;

    open spec fn view(&self) -> Seq<Seq<TextElement>> {
        self.paragraphs@.map_values(|paragraph: Paragraph| paragraph@)
    }
}

/// Whether `result` is what the grammar expects: the value with the
/// expected view, or a failure with the expected message.
pub open spec fn agrees<'a, T: View>(
    result: Result<T, JustTextError<'a>>,
    expected: Result<T::V, Seq<char>>,
) -> bool {
    match expected {
        Ok(value) => result is Ok && result->Ok_0@ == value,
        Err(message) => result is Err && result->Err_0@ == message,
    }
}

/// What parsing the buffer `bytes` gives: the paragraphs of the note, or
/// the message of the first failure.
pub open spec fn parse_of(bytes: Seq<u8>) -> Result<Seq<Seq<TextElement>>, Seq<char>> {
    note_of(tokens_of(bytes), Seq::empty()).0
}

/// Parses the note in `input`. The parse is all or nothing: the first
/// element that fails fails the note.
pub fn parse<'a>(input: &'a str) -> (result: Result<Note, JustTextError<'a>>)
    ensures
        agrees(result, parse_of(encode_utf8(input@))),
        result matches Ok(note) ==> note_fits(encode_utf8(input@), note@),
{
    let mut tokens = Lexer::new(input).peekable();
    parse_note(&mut tokens)
}

/// Parses paragraph after paragraph until no token is left.
pub fn parse_note<'a>(tokens: &mut Peekable<'a>) -> (result: Result<Note, JustTextError<'a>>)
    ensures
        agrees(result, note_of(old(tokens)@, Seq::empty()).0),
        final(tokens)@ == note_of(old(tokens)@, Seq::empty()).1,
        result is Ok ==> final(tokens)@.len() == 0,
        placed(old(tokens).source(), old(tokens)@) && result is Ok ==> note_fits(
            old(tokens).source(),
            result->Ok_0@,
        ),
        placed(old(tokens).source(), old(tokens)@) ==> placed(
            final(tokens).source(),
            final(tokens)@,
        ),
        final(tokens).source() == old(tokens).source(),
{
    proof {
        lemma_note_consumes_all(tokens@, Seq::empty());
        if placed(tokens.source(), tokens@) {
            lemma_note_fits(tokens.source(), tokens@, Seq::empty());
        }
    }
    let mut paragraphs: Vec<Paragraph> = Vec::new();
    let ghost lift = |paragraph: Paragraph| paragraph@;
    assert(paragraphs@.map_values(lift) =~= Seq::<Seq<TextElement>>::empty());
    loop
        invariant
            note_of(tokens@, paragraphs@.map_values(lift)) == note_of(old(tokens)@, Seq::empty()),
            tokens.source() == old(tokens).source(),
            lift == |paragraph: Paragraph| paragraph@,
            note_of(old(tokens)@, Seq::empty()).0 is Ok ==> note_of(
                old(tokens)@,
                Seq::empty(),
            ).1.len() == 0,
            placed(old(tokens).source(), old(tokens)@) ==> placed(
                old(tokens).source(),
                note_of(old(tokens)@, Seq::empty()).1,
            ),
            placed(old(tokens).source(), old(tokens)@) ==> (note_of(
                old(tokens)@,
                Seq::empty(),
            ).0 matches Ok(all) ==> note_fits(old(tokens).source(), all)),
        decreases tokens@.len(),
    {
        if tokens.peek().is_none() {
            return Ok(Note { paragraphs });
        }
        let ghost before = tokens@;
        let ghost done = paragraphs@.map_values(lift);
        match parse_paragraph(tokens) {
            Ok(paragraph) => {
                proof {
                    lemma_paragraph_consumes(before, Seq::empty());
                    assert(paragraphs@.push(paragraph).map_values(lift) =~= done.push(
                        paragraph@,
                    ));
                }
                paragraphs.push(paragraph);
            },
            Err(error) => {
                return Err(error);
            },
        }
    }
}

/// Parses one paragraph: inline elements up to a blank line or the end of
/// the tokens. A single newline between elements is dropped.
pub fn parse_paragraph<'a>(tokens: &mut Peekable<'a>) -> (result: Result<
    Paragraph,
    JustTextError<'a>,
>)
    ensures
        agrees(result, paragraph_of(old(tokens)@, Seq::empty()).0),
        final(tokens)@ == paragraph_of(old(tokens)@, Seq::empty()).1,
        placed(old(tokens).source(), old(tokens)@) && result is Ok ==> paragraph_fits(
            old(tokens).source(),
            result->Ok_0@,
        ),
        placed(old(tokens).source(), old(tokens)@) ==> placed(
            final(tokens).source(),
            final(tokens)@,
        ),
        final(tokens).source() == old(tokens).source(),
{
    proof {
        if placed(tokens.source(), tokens@) {
            lemma_paragraph_fits(tokens.source(), tokens@, Seq::empty());
        }
    }
    let mut parts: Vec<TextElement> = Vec::new();
    loop
        invariant
            paragraph_of(tokens@, parts@) == paragraph_of(old(tokens)@, Seq::empty()),
            tokens.source() == old(tokens).source(),
            placed(old(tokens).source(), old(tokens)@) ==> placed(
                old(tokens).source(),
                paragraph_of(old(tokens)@, Seq::empty()).1,
            ),
            placed(old(tokens).source(), old(tokens)@) ==> (paragraph_of(
                old(tokens)@,
                Seq::empty(),
            ).0 matches Ok(all) ==> paragraph_fits(old(tokens).source(), all)),
        decreases tokens@.len(),
    {
        match tokens.peek() {
            None => {
                return Ok(Paragraph { parts });
            },
            Some(token) => {
                if token.kind == TokenKind::Newline {
                    tokens.next();
                    if let Some(second) = tokens.peek() {
                        if second.kind == TokenKind::Newline {
                            tokens.next();
                            return Ok(Paragraph { parts });
                        }
                    }
                }
            },
        }
        if tokens.peek().is_none() {
            return Ok(Paragraph { parts });
        }
        proof {
            lemma_element_consumes(tokens@);
        }
        match parse_text_element(tokens) {
            Ok(element) => {
                parts.push(element);
            },
            Err(error) => {
                return Err(error);
            },
        }
    }
}

/// Parses the inline element that the next token starts.
pub fn parse_text_element<'a>(tokens: &mut Peekable<'a>) -> (result: Result<
    TextElement,
    JustTextError<'a>,
>)
    requires
        old(tokens)@.len() > 0,
    ensures
        agrees(result, element_of(old(tokens)@).0),
        final(tokens)@ == element_of(old(tokens)@).1,
        placed(old(tokens).source(), old(tokens)@) && result is Ok ==> element_fits(
            old(tokens).source(),
            result->Ok_0,
        ),
        placed(old(tokens).source(), old(tokens)@) ==> placed(
            final(tokens).source(),
            final(tokens)@,
        ),
        final(tokens).source() == old(tokens).source(),
{
    proof {
        if placed(tokens.source(), tokens@) {
            lemma_element_fits(tokens.source(), tokens@);
        }
    }
    let next = tokens.peek().unwrap();
    match next.kind {
        TokenKind::Text => Ok(parse_text(tokens)),
        TokenKind::Backtick => parse_mono(tokens),
        TokenKind::TripleBacktick => parse_block_mono(tokens),
        TokenKind::LBracket => parse_link(tokens),
        _ => Err(JustTextError::new("Malformed note input")),
    }
}

fn kind_ends_text(kind: TokenKind) -> (ends: bool)
    ensures
        ends == ends_text(kind),
{
    match kind {
        TokenKind::Backtick | TokenKind::TripleBacktick | TokenKind::LBracket | TokenKind::Newline => true,
        _ => false,
    }
}

/// Parses a run of text: the next token and every token after it up to
/// the first that ends text, which stays in place.
pub fn parse_text<'a>(tokens: &mut Peekable<'a>) -> (element: TextElement)
    requires
        old(tokens)@.len() > 0,
    ensures
        (element, final(tokens)@) == text_of(old(tokens)@),
        placed(old(tokens).source(), old(tokens)@) ==> element_fits(
            old(tokens).source(),
            element,
        ),
        placed(old(tokens).source(), old(tokens)@) ==> placed(
            final(tokens).source(),
            final(tokens)@,
        ),
        final(tokens).source() == old(tokens).source(),
{
    proof {
        if placed(tokens.source(), tokens@) {
            lemma_text_fits(tokens.source(), tokens@);
        }
    }
    let ghost all = tokens@;
    let first = tokens.next().unwrap();
    let start = first.span.0;
    let mut end = first.span.1;
    let ghost mut taken: int = 1;
    loop
        invariant_except_break
            1 <= taken <= all.len(),
            tokens@ == all.skip(taken),
            tokens.source() == old(tokens).source(),
            forall|j: int| 1 <= j < taken ==> !ends_text((#[trigger] all[j]).kind),
            end == all[taken - 1].span.1,
        ensures
            1 <= taken <= all.len(),
            tokens@ == all.skip(taken),
            tokens.source() == old(tokens).source(),
            forall|j: int| 1 <= j < taken ==> !ends_text((#[trigger] all[j]).kind),
            end == all[taken - 1].span.1,
            taken < all.len() ==> ends_text(all[taken].kind),
        decreases all.len() - taken,
    {
        match tokens.peek() {
            Some(token) => {
                if kind_ends_text(token.kind) {
                    break ;
                }
                end = token.span.1;
                tokens.next();
                proof {
                    assert(all.skip(taken).drop_first() =~= all.skip(taken + 1));
                    taken = taken + 1;
                }
            },
            None => {
                break ;
            },
        }
    }
    proof {
        lemma_run_len_unique(all, 1, taken, |t: Token| !ends_text(t.kind));
    }
    TextElement::Text((start, end))
}

/// Takes the opening delimiter and every token after it up to the first
/// of kind `closer`, which it takes too. Hands out the span between the
/// two delimiters, or `None` where the tokens end before a closing one.
fn scan_code<'a>(tokens: &mut Peekable<'a>, closer: TokenKind) -> (span: Option<Span>)
    requires
        old(tokens)@.len() > 0,
    ensures
        (span, final(tokens)@) == code_of(old(tokens)@, closer),
        final(tokens).source() == old(tokens).source(),
{
    let ghost all = tokens@;
    let start = tokens.next().unwrap().span.1;
    let mut end = start;
    let ghost mut taken: int = 1;
    assert(all.skip(0) =~= all);
    loop
        invariant
            all == old(tokens)@,
            1 <= taken <= all.len(),
            tokens@ == all.skip(taken),
            tokens.source() == old(tokens).source(),
            forall|j: int| 1 <= j < taken ==> (#[trigger] all[j]).kind != closer,
            start == all[0].span.1,
            end == all[taken - 1].span.1,
        decreases all.len() - taken,
    {
        let next = tokens.next();
        if next.is_none() {
            proof {
                lemma_run_len_unique(all, 1, taken, |t: Token| t.kind != closer);
                assert(tokens@ =~= Seq::<Token>::empty());
            }
            return None;
        }
        let next = next.unwrap();
        proof {
            assert(all.skip(taken).drop_first() =~= all.skip(taken + 1));
        }
        if next.kind == closer {
            proof {
                lemma_run_len_unique(all, 1, taken, |t: Token| t.kind != closer);
            }
            return Some((start, end));
        }
        end = next.span.1;
        proof {
            taken = taken + 1;
        }
    }
}

/// Parses inline code: from a backtick to the next backtick.
pub fn parse_mono<'a>(tokens: &mut Peekable<'a>) -> (result: Result<
    TextElement,
    JustTextError<'a>,
>)
    requires
        old(tokens)@.len() > 0,
    ensures
        agrees(result, mono_of(old(tokens)@).0),
        final(tokens)@ == mono_of(old(tokens)@).1,
        placed(old(tokens).source(), old(tokens)@) && result is Ok ==> element_fits(
            old(tokens).source(),
            result->Ok_0,
        ),
        placed(old(tokens).source(), old(tokens)@) ==> placed(
            final(tokens).source(),
            final(tokens)@,
        ),
        final(tokens).source() == old(tokens).source(),
{
    proof {
        if placed(tokens.source(), tokens@) {
            lemma_code_fits(tokens.source(), tokens@, TokenKind::Backtick);
        }
    }
    match scan_code(tokens, TokenKind::Backtick) {
        Some(span) => Ok(TextElement::Mono(span)),
        None => Err(JustTextError::new("Unterminated inline mono")),
    }
}

/// Parses fenced code: from a triple backtick to the next triple backtick.
pub fn parse_block_mono<'a>(tokens: &mut Peekable<'a>) -> (result: Result<
    TextElement,
    JustTextError<'a>,
>)
    requires
        old(tokens)@.len() > 0,
    ensures
        agrees(result, block_mono_of(old(tokens)@).0),
        final(tokens)@ == block_mono_of(old(tokens)@).1,
        placed(old(tokens).source(), old(tokens)@) && result is Ok ==> element_fits(
            old(tokens).source(),
            result->Ok_0,
        ),
        placed(old(tokens).source(), old(tokens)@) ==> placed(
            final(tokens).source(),
            final(tokens)@,
        ),
        final(tokens).source() == old(tokens).source(),
{
    proof {
        if placed(tokens.source(), tokens@) {
            lemma_code_fits(tokens.source(), tokens@, TokenKind::TripleBacktick);
        }
    }
    match scan_code(tokens, TokenKind::TripleBacktick) {
        Some(span) => Ok(TextElement::BlockMono(span)),
        None => Err(JustTextError::new("Unterminated block mono")),
    }
}

/// Takes the next token, which must be of kind `kind`. `all` are the
/// tokens of the link and `index` is the place of the next token among
/// them.
fn expect<'a>(
    tokens: &mut Peekable<'a>,
    kind: TokenKind,
    message: &'a str,
    Ghost(all): Ghost<Seq<Token>>,
    Ghost(index): Ghost<int>,
) -> (result: Result<Token, JustTextError<'a>>)
    requires
        1 <= index,
        old(tokens)@ == if index <= all.len() {
            all.skip(index)
        } else {
            Seq::empty()
        },
    ensures
        final(tokens).source() == old(tokens).source(),
        match link_fault(all, index, kind, message@) {
            Some((fault, rest)) => result is Err && fault == Err::<TextElement, Seq<char>>(
                result->Err_0@,
            ) && final(tokens)@ == rest,
            None => result is Ok && result->Ok_0 == all[index] && index < all.len()
                && final(tokens)@ == all.skip(index + 1),
        },
{
    let next = tokens.next();
    if next.is_none() {
        proof {
            assert(final(tokens)@ =~= Seq::<Token>::empty());
        }
        return Err(JustTextError::new("Incomplete link"));
    }
    let next = next.unwrap();
    proof {
        assert(all.skip(index).drop_first() =~= all.skip(index + 1));
    }
    if next.kind != kind {
        return Err(JustTextError::new(message));
    }
    Ok(next)
}

/// Parses a link: `[`, text, `]`, `(`, text, `)`, with nothing between
/// them. The opening bracket is taken unseen.
pub fn parse_link<'a>(tokens: &mut Peekable<'a>) -> (result: Result<
    TextElement,
    JustTextError<'a>,
>)
    ensures
        agrees(result, link_of(old(tokens)@).0),
        result is Ok <==> is_link(old(tokens)@),
        final(tokens)@ == link_of(old(tokens)@).1,
        placed(old(tokens).source(), old(tokens)@) && result is Ok ==> element_fits(
            old(tokens).source(),
            result->Ok_0,
        ),
        placed(old(tokens).source(), old(tokens)@) ==> placed(
            final(tokens).source(),
            final(tokens)@,
        ),
        final(tokens).source() == old(tokens).source(),
{
    proof {
        if placed(tokens.source(), tokens@) {
            lemma_link_fits(tokens.source(), tokens@);
        }
    }
    let ghost all = tokens@;
    tokens.next();
    proof {
        assert(all.len() > 0 ==> all.drop_first() =~= all.skip(1));
    }
    let title = match expect(
        tokens,
        TokenKind::Text,
        "Invalid link: expected text after \"[\"",
        Ghost(all),
        Ghost(1),
    ) {
        Ok(token) => token,
        Err(error) => {
            return Err(error);
        },
    };
    match expect(
        tokens,
        TokenKind::RBracket,
        "Invalid link: expected \"]\" after title",
        Ghost(all),
        Ghost(2),
    ) {
        Ok(token) => {},
        Err(error) => {
            return Err(error);
        },
    }
    match expect(
        tokens,
        TokenKind::LParen,
        "Invalid link: expected \"(\" after \"]\"",
        Ghost(all),
        Ghost(3),
    ) {
        Ok(token) => {},
        Err(error) => {
            return Err(error);
        },
    }
    let href = match expect(
        tokens,
        TokenKind::Text,
        "Invalid link: expected text after \"(\"",
        Ghost(all),
        Ghost(4),
    ) {
        Ok(token) => token,
        Err(error) => {
            return Err(error);
        },
    };
    match expect(
        tokens,
        TokenKind::RParen,
        "Invalid link: expected \")\" after href",
        Ghost(all),
        Ghost(5),
    ) {
        Ok(token) => {},
        Err(error) => {
            return Err(error);
        },
    }
    Ok(TextElement::Link { title: title.span, href: href.span })
}

} // verus!
