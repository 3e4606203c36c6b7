//! The grammar of a note, over sequences of tokens: what each parsing
//! function of the library finds at the front of the tokens it is given, and
//! which tokens it leaves.

use crate::boundaries::{
    element_fits, fits, lemma_placed_skip, note_fits, paragraph_fits, placed,
};
use crate::lexer::{Token, TokenKind};
use crate::parser::TextElement;
use crate::runs::{lemma_run_len, run_len};
use vstd::prelude::*;

verus! {

/// What parsing at the front of a token sequence gives: the value or the
/// message of the failure, and the tokens that were not consumed.
pub type Parsed<T> = (Result<T, Seq<char>>, Seq<Token>);

/// The message for a token that can start no element.
pub open spec fn malformed_message() -> Seq<char> {
    "Malformed note input"@
}

/// The message for inline code that no backtick closes.
pub open spec fn unterminated_mono_message() -> Seq<char> {
    "Unterminated inline mono"@
}

/// The message for fenced code that no triple backtick closes.
pub open spec fn unterminated_block_mono_message() -> Seq<char> {
    "Unterminated block mono"@
}

/// The message for a link that the end of the tokens cuts short.
pub open spec fn incomplete_link_message() -> Seq<char> {
    "Incomplete link"@
}

/// The message for a link without text behind its `[`.
pub open spec fn expected_title_message() -> Seq<char> {
    "Invalid link: expected text after \"[\""@
}

/// The message for a link without `]` behind its title.
pub open spec fn expected_rbracket_message() -> Seq<char> {
    "Invalid link: expected \"]\" after title"@
}

/// The message for a link without `(` behind its `]`.
pub open spec fn expected_lparen_message() -> Seq<char> {
    "Invalid link: expected \"(\" after \"]\""@
}

/// The message for a link without text behind its `(`.
pub open spec fn expected_href_message() -> Seq<char> {
    "Invalid link: expected text after \"(\""@
}

/// The message for a link without `)` behind its target.
pub open spec fn expected_rparen_message() -> Seq<char> {
    "Invalid link: expected \")\" after href"@
}

/// Whether a token of this kind ends a run of text.
pub open spec fn ends_text(kind: TokenKind) -> bool {
    kind == TokenKind::Backtick || kind == TokenKind::TripleBacktick || kind == TokenKind::LBracket
        || kind == TokenKind::Newline
}

/// The number of tokens of the text run that starts with the first token:
/// that token and every token after it up to the first that ends text.
pub open spec fn text_len(tokens: Seq<Token>) -> nat {
    1 + run_len(tokens, 1, |t: Token| !ends_text(t.kind))
}

/// A run of text at the front of `tokens`, which are not empty: it covers
/// the buffer from the start of the first token to the end of the last
/// token of the run.
pub open spec fn text_of(tokens: Seq<Token>) -> (TextElement, Seq<Token>) {
    let n = text_len(tokens) as int;
    (TextElement::Text((tokens[0].span.0, tokens[n - 1].span.1)), tokens.skip(n))
}

/// The number of tokens between the opening delimiter, which is the first
/// token, and the first later token of kind `closer`.
pub open spec fn code_len(tokens: Seq<Token>, closer: TokenKind) -> nat {
    run_len(tokens, 1, |t: Token| t.kind != closer)
}

/// A stretch of code at the front of `tokens`, which are not empty and
/// start with the opening delimiter: the span from the end of that
/// delimiter to the end of the last token before the first token of kind
/// `closer`. Without such a token every token is consumed and `None` says
/// that the code is not terminated.
pub open spec fn code_of(tokens: Seq<Token>, closer: TokenKind) -> (
    Option<(usize, usize)>,
    Seq<Token>,
) {
    let inside = code_len(tokens, closer) as int;
    if 1 + inside >= tokens.len() {
        (None, Seq::empty())
    } else {
        (Some((tokens[0].span.1, tokens[inside].span.1)), tokens.skip(inside + 2))
    }
}

/// Inline code at the front of `tokens`, which start with a backtick.
pub open spec fn mono_of(tokens: Seq<Token>) -> Parsed<TextElement> {
    match code_of(tokens, TokenKind::Backtick) {
        (Some(span), rest) => (Ok(TextElement::Mono(span)), rest),
        (None, rest) => (Err(unterminated_mono_message()), rest),
    }
}

/// Fenced code at the front of `tokens`, which start with a triple
/// backtick.
pub open spec fn block_mono_of(tokens: Seq<Token>) -> Parsed<TextElement> {
    match code_of(tokens, TokenKind::TripleBacktick) {
        (Some(span), rest) => (Ok(TextElement::BlockMono(span)), rest),
        (None, rest) => (Err(unterminated_block_mono_message()), rest),
    }
}

/// Whether `tokens` start with the five tokens that follow the opening
/// bracket of a link: text, `]`, `(`, text, `)`.
pub open spec fn is_link(tokens: Seq<Token>) -> bool {
    &&& tokens.len() >= 6
    &&& tokens[1].kind == TokenKind::Text
    &&& tokens[2].kind == TokenKind::RBracket
    &&& tokens[3].kind == TokenKind::LParen
    &&& tokens[4].kind == TokenKind::Text
    &&& tokens[5].kind == TokenKind::RParen
}

/// What is wrong with the token at `index`, which should be of kind
/// `kind`: nothing (`None`), or the stream ends before it, or it is of
/// another kind, which `message` reports.
pub open spec fn link_fault(
    tokens: Seq<Token>,
    index: int,
    kind: TokenKind,
    message: Seq<char>,
) -> Option<Parsed<TextElement>> {
    if tokens.len() <= index {
        Some((Err(incomplete_link_message()), Seq::empty()))
    } else if tokens[index].kind != kind {
        Some((Err(message), tokens.skip(index + 1)))
    } else {
        None
    }
}

/// A link at the front of `tokens`. The first token is taken for the
/// opening bracket unseen; the five after it are checked in order, and the
/// first that is missing or of the wrong kind decides the failure.
pub open spec fn link_of(tokens: Seq<Token>) -> Parsed<TextElement> {
    if let Some(fault) = link_fault(tokens, 1, TokenKind::Text, expected_title_message()) {
        fault
    } else if let Some(fault) = link_fault(
        tokens,
        2,
        TokenKind::RBracket,
        expected_rbracket_message(),
    ) {
        fault
    } else if let Some(fault) = link_fault(
        tokens,
        3,
        TokenKind::LParen,
        expected_lparen_message(),
    ) {
        fault
    } else if let Some(fault) = link_fault(tokens, 4, TokenKind::Text, expected_href_message()) {
        fault
    } else if let Some(fault) = link_fault(
        tokens,
        5,
        TokenKind::RParen,
        expected_rparen_message(),
    ) {
        fault
    } else {
        (Ok(TextElement::Link { title: tokens[1].span, href: tokens[4].span }), tokens.skip(6))
    }
}

/// The inline element at the front of `tokens`, which are not empty. The
/// kind of the first token decides which element it is; a token that can
/// start none is a failure and stays in place.
pub open spec fn element_of(tokens: Seq<Token>) -> Parsed<TextElement> {
    match tokens[0].kind {
        TokenKind::Text => (Ok(text_of(tokens).0), text_of(tokens).1),
        TokenKind::Backtick => mono_of(tokens),
        TokenKind::TripleBacktick => block_mono_of(tokens),
        TokenKind::LBracket => link_of(tokens),
        _ => (Err(malformed_message()), tokens),
    }
}

/// An element that was parsed took at least one token, and what is left is
/// the end of what was given.
pub proof fn lemma_element_consumes(tokens: Seq<Token>)
    requires
        tokens.len() > 0,
    ensures
        element_of(tokens).1.len() <= tokens.len(),
        element_of(tokens).0 is Ok ==> element_of(tokens).1.len() < tokens.len(),
        exists|n: int|
            0 <= n <= tokens.len() && element_of(tokens).1 == #[trigger] tokens.skip(n),
{
    lemma_run_len(tokens, 1, |t: Token| !ends_text(t.kind));
    lemma_run_len(tokens, 1, |t: Token| t.kind != TokenKind::Backtick);
    lemma_run_len(tokens, 1, |t: Token| t.kind != TokenKind::TripleBacktick);
    let rest = element_of(tokens).1;
    assert(tokens.skip(tokens.len() as int) =~= Seq::<Token>::empty());
    assert(tokens.skip(0) =~= tokens);
    match tokens[0].kind {
        TokenKind::Text => {
            assert(rest == tokens.skip(text_len(tokens) as int));
        },
        TokenKind::Backtick => {
            let inside = code_len(tokens, TokenKind::Backtick) as int;
            assert(rest == tokens.skip(tokens.len() as int) || rest == tokens.skip(inside + 2));
        },
        TokenKind::TripleBacktick => {
            let inside = code_len(tokens, TokenKind::TripleBacktick) as int;
            assert(rest == tokens.skip(tokens.len() as int) || rest == tokens.skip(inside + 2));
        },
        TokenKind::LBracket => {
            assert(rest == tokens.skip(tokens.len() as int) || rest == tokens.skip(2) || rest
                == tokens.skip(3) || rest == tokens.skip(4) || rest == tokens.skip(5) || rest
                == tokens.skip(6));
        },
        _ => {
            assert(rest == tokens.skip(0));
        },
    }
}

/// A paragraph at the front of `tokens`, added to the elements in `parts`
/// that it already has. One newline is dropped; two in a row end the
/// paragraph, and so does the end of the tokens. A failing element fails
/// the paragraph.
pub open spec fn paragraph_of(tokens: Seq<Token>, parts: Seq<TextElement>) -> Parsed<
    Seq<TextElement>,
>
    decreases tokens.len(),
{
    if tokens.len() == 0 {
        (Ok(parts), tokens)
    } else {
        let newline = tokens[0].kind == TokenKind::Newline;
        let after = if newline {
            tokens.skip(1)
        } else {
            tokens
        };
        if newline && after.len() > 0 && after[0].kind == TokenKind::Newline {
            (Ok(parts), after.skip(1))
        } else if after.len() == 0 {
            (Ok(parts), after)
        } else {
            proof {
                lemma_element_consumes(after);
            }
            match element_of(after) {
                (Ok(element), rest) => paragraph_of(rest, parts.push(element)),
                (Err(message), rest) => (Err(message), rest),
            }
        }
    }
}

/// A paragraph that was parsed from tokens that were not empty took at
/// least one of them.
pub proof fn lemma_paragraph_consumes(tokens: Seq<Token>, parts: Seq<TextElement>)
    ensures
        paragraph_of(tokens, parts).1.len() <= tokens.len(),
        tokens.len() > 0 && paragraph_of(tokens, parts).0 is Ok ==> paragraph_of(
            tokens,
            parts,
        ).1.len() < tokens.len(),
    decreases tokens.len(),
{
    if tokens.len() > 0 {
        let newline = tokens[0].kind == TokenKind::Newline;
        let after = if newline {
            tokens.skip(1)
        } else {
            tokens
        };
        if newline && after.len() > 0 && after[0].kind == TokenKind::Newline {
        } else if after.len() == 0 {
        } else {
            lemma_element_consumes(after);
            match element_of(after) {
                (Ok(element), rest) => {
                    lemma_paragraph_consumes(rest, parts.push(element));
                },
                (Err(message), rest) => {},
            }
        }
    }
}

/// The paragraphs that `tokens` hold, added to those in `paragraphs`:
/// paragraph after paragraph until no token is left. A failing paragraph
/// fails the whole.
pub open spec fn note_of(tokens: Seq<Token>, paragraphs: Seq<Seq<TextElement>>) -> Parsed<
    Seq<Seq<TextElement>>,
>
    decreases tokens.len(),
{
    if tokens.len() == 0 {
        (Ok(paragraphs), tokens)
    } else {
        proof {
            lemma_paragraph_consumes(tokens, Seq::empty());
        }
        match paragraph_of(tokens, Seq::empty()) {
            (Ok(parts), rest) => note_of(rest, paragraphs.push(parts)),
            (Err(message), rest) => (Err(message), rest),
        }
    }
}

/// A note that was parsed left no token.
pub proof fn lemma_note_consumes_all(tokens: Seq<Token>, paragraphs: Seq<Seq<TextElement>>)
    ensures
        note_of(tokens, paragraphs).0 is Ok ==> note_of(tokens, paragraphs).1.len() == 0,
    decreases tokens.len(),
{
    if tokens.len() > 0 {
        lemma_paragraph_consumes(tokens, Seq::empty());
        match paragraph_of(tokens, Seq::empty()) {
            (Ok(parts), rest) => {
                lemma_note_consumes_all(rest, paragraphs.push(parts));
            },
            (Err(message), rest) => {},
        }
    }
}

/// A run of text parsed from placed tokens can be cut out of the buffer,
/// and the tokens that are left are placed.
pub proof fn lemma_text_fits(bytes: Seq<u8>, tokens: Seq<Token>)
    requires
        placed(bytes, tokens),
        tokens.len() > 0,
    ensures
        element_fits(bytes, text_of(tokens).0),
        placed(bytes, text_of(tokens).1),
{
    lemma_run_len(tokens, 1, |t: Token| !ends_text(t.kind));
    lemma_placed_skip(bytes, tokens, text_len(tokens) as int);
}

/// The span of code parsed from placed tokens can be cut out of the
/// buffer, and the tokens that are left are placed.
pub proof fn lemma_code_fits(bytes: Seq<u8>, tokens: Seq<Token>, closer: TokenKind)
    requires
        placed(bytes, tokens),
        tokens.len() > 0,
    ensures
        code_of(tokens, closer).0 matches Some(span) ==> fits(bytes, span),
        placed(bytes, code_of(tokens, closer).1),
{
    lemma_run_len(tokens, 1, |t: Token| t.kind != closer);
    let inside = code_len(tokens, closer) as int;
    if 1 + inside < tokens.len() {
        lemma_placed_skip(bytes, tokens, inside + 2);
    }
}

/// A link parsed from placed tokens can be cut out of the buffer, and the
/// tokens that are left are placed.
pub proof fn lemma_link_fits(bytes: Seq<u8>, tokens: Seq<Token>)
    requires
        placed(bytes, tokens),
    ensures
        link_of(tokens).0 matches Ok(element) ==> element_fits(bytes, element),
        placed(bytes, link_of(tokens).1),
{
    if tokens.len() >= 2 {
        lemma_placed_skip(bytes, tokens, 2);
    }
    if tokens.len() >= 3 {
        lemma_placed_skip(bytes, tokens, 3);
    }
    if tokens.len() >= 4 {
        lemma_placed_skip(bytes, tokens, 4);
    }
    if tokens.len() >= 5 {
        lemma_placed_skip(bytes, tokens, 5);
    }
    if tokens.len() >= 6 {
        lemma_placed_skip(bytes, tokens, 6);
    }
}

/// An element parsed from placed tokens can be cut out of the buffer, and
/// the tokens that are left are placed.
pub proof fn lemma_element_fits(bytes: Seq<u8>, tokens: Seq<Token>)
    requires
        placed(bytes, tokens),
        tokens.len() > 0,
    ensures
        placed(bytes, element_of(tokens).1),
        element_of(tokens).0 matches Ok(element) ==> element_fits(bytes, element),
{
    lemma_text_fits(bytes, tokens);
    lemma_code_fits(bytes, tokens, TokenKind::Backtick);
    lemma_code_fits(bytes, tokens, TokenKind::TripleBacktick);
    lemma_link_fits(bytes, tokens);
}

/// A paragraph parsed from placed tokens can be cut out of the buffer, and
/// the tokens that are left are placed.
pub proof fn lemma_paragraph_fits(bytes: Seq<u8>, tokens: Seq<Token>, parts: Seq<TextElement>)
    requires
        placed(bytes, tokens),
        paragraph_fits(bytes, parts),
    ensures
        placed(bytes, paragraph_of(tokens, parts).1),
        paragraph_of(tokens, parts).0 matches Ok(all) ==> paragraph_fits(bytes, all),
    decreases tokens.len(),
{
    if tokens.len() > 0 {
        let newline = tokens[0].kind == TokenKind::Newline;
        let after = if newline {
            tokens.skip(1)
        } else {
            tokens
        };
        lemma_placed_skip(bytes, tokens, 1);
        if newline && after.len() > 0 && after[0].kind == TokenKind::Newline {
            lemma_placed_skip(bytes, after, 1);
        } else if after.len() == 0 {
        } else {
            lemma_element_consumes(after);
            lemma_element_fits(bytes, after);
            match element_of(after) {
                (Ok(element), rest) => {
                    lemma_paragraph_fits(bytes, rest, parts.push(element));
                },
                (Err(message), rest) => {},
            }
        }
    }
}

/// A note parsed from placed tokens can be cut out of the buffer.
pub proof fn lemma_note_fits(
    bytes: Seq<u8>,
    tokens: Seq<Token>,
    paragraphs: Seq<Seq<TextElement>>,
)
    requires
        placed(bytes, tokens),
        note_fits(bytes, paragraphs),
    ensures
        placed(bytes, note_of(tokens, paragraphs).1),
        note_of(tokens, paragraphs).0 matches Ok(all) ==> note_fits(bytes, all),
    decreases tokens.len(),
{
    if tokens.len() > 0 {
        lemma_paragraph_consumes(tokens, Seq::empty());
        lemma_paragraph_fits(bytes, tokens, Seq::empty());
        match paragraph_of(tokens, Seq::empty()) {
            (Ok(parts), rest) => {
                lemma_note_fits(bytes, rest, paragraphs.push(parts));
            },
            (Err(message), rest) => {},
        }
    }
}

} // verus!
