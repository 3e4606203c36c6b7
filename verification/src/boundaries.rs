//! Character boundaries in UTF-8 text: which intervals of bytes can be cut
//! out of a buffer as text.

use crate::lexer::{
    backtick_bytes, is_delimiter, lemma_token_len, plain_bytes, token_len, tokens_from, tokens_of,
    Span, Token,
};
use crate::parser::TextElement;
use crate::runs::lemma_run_len;
use vstd::prelude::*;
use vstd::utf8::{
    decode_utf8, encode_utf8, encode_utf8_decode_utf8, encode_utf8_valid_utf8, is_char_boundary,
    is_char_boundary_iff_not_is_continuation_byte, is_char_boundary_start_end_of_seq,
    length_of_first_scalar, pop_first_scalar, valid_utf8, valid_utf8_split,
};

verus! {

/// Whether `span` lies inside `bytes` and both its ends fall between two
/// characters.
pub open spec fn fits(bytes: Seq<u8>, span: Span) -> bool {
    &&& span.0 <= span.1 <= bytes.len()
    &&& is_char_boundary(bytes, span.0 as int)
    &&& is_char_boundary(bytes, span.1 as int)
}

/// The text that `span` covers in `bytes`.
pub open spec fn slice_of(bytes: Seq<u8>, span: Span) -> Seq<char> {
    decode_utf8(bytes.subrange(span.0 as int, span.1 as int))
}

/// A boundary of a text is a boundary of each of its prefixes that reaches
/// it.
pub proof fn lemma_boundary_in_prefix(bytes: Seq<u8>, index: int, end: int)
    requires
        valid_utf8(bytes),
        0 <= index <= end <= bytes.len(),
        is_char_boundary(bytes, index),
        is_char_boundary(bytes, end),
    ensures
        valid_utf8(bytes.subrange(0, end)),
        is_char_boundary(bytes.subrange(0, end), index),
{
    let prefix = bytes.subrange(0, end);
    valid_utf8_split(bytes, end);
    if index < end {
        is_char_boundary_iff_not_is_continuation_byte(bytes, index);
        is_char_boundary_iff_not_is_continuation_byte(prefix, index);
    } else {
        is_char_boundary_start_end_of_seq(prefix);
    }
}

/// A byte below 128 stands for a character by itself: there is a boundary
/// before it and one after it.
pub proof fn lemma_boundaries_around_ascii(bytes: Seq<u8>, index: int)
    requires
        valid_utf8(bytes),
        0 <= index < bytes.len(),
        bytes[index] < 0x80,
    ensures
        is_char_boundary(bytes, index),
        is_char_boundary(bytes, index + 1),
    decreases bytes.len(),
{
    is_char_boundary_iff_not_is_continuation_byte(bytes, index);
    let rest = pop_first_scalar(bytes);
    let width = length_of_first_scalar(bytes);
    if index == 0 {
        assert(width == 1);
        assert(is_char_boundary(rest, 0));
    } else {
        reveal_with_fuel(is_char_boundary, 2);
        assert(index >= width);
        assert(rest[index - width] == bytes[index]);
        lemma_boundaries_around_ascii(rest, index - width);
    }
}

/// The part of `content` that `span` covers.
pub fn slice<'a>(content: &'a str, span: Span) -> (text: &'a str)
    requires
        fits(encode_utf8(content@), span),
    ensures
        text@ == slice_of(encode_utf8(content@), span),
        encode_utf8(text@) == encode_utf8(content@).subrange(span.0 as int, span.1 as int),
{
    let ghost bytes = encode_utf8(content@);
    proof {
        encode_utf8_valid_utf8(content@);
        lemma_boundary_in_prefix(bytes, span.0 as int, span.1 as int);
    }
    let (head, _) = content.split_at(span.1);
    let (_, text) = head.split_at(span.0);
    proof {
        assert(encode_utf8(text@) =~= bytes.subrange(span.0 as int, span.1 as int));
        encode_utf8_decode_utf8(text@);
    }
    text
}

/// Whether every span of `element` can be cut out of `bytes`.
pub open spec fn element_fits(bytes: Seq<u8>, element: TextElement) -> bool {
    match element {
        TextElement::Text(span) => fits(bytes, span),
        TextElement::Link { title, href } => fits(bytes, title) && fits(bytes, href),
        TextElement::Mono(span) => fits(bytes, span),
        TextElement::BlockMono(span) => fits(bytes, span),
    }
}

/// Whether every span of the paragraph `parts` can be cut out of `bytes`.
pub open spec fn paragraph_fits(bytes: Seq<u8>, parts: Seq<TextElement>) -> bool {
    forall|i: int| 0 <= i < parts.len() ==> element_fits(bytes, #[trigger] parts[i])
}

/// Whether every span of the note `paragraphs` can be cut out of `bytes`.
pub open spec fn note_fits(bytes: Seq<u8>, paragraphs: Seq<Seq<TextElement>>) -> bool {
    forall|i: int| 0 <= i < paragraphs.len() ==> paragraph_fits(bytes, #[trigger] paragraphs[i])
}

/// Whether the spans of `tokens` can be cut out of `bytes` and come one
/// after the other without overlap.
pub open spec fn placed(bytes: Seq<u8>, tokens: Seq<Token>) -> bool {
    &&& forall|i: int| 0 <= i < tokens.len() ==> fits(bytes, (#[trigger] tokens[i]).span)
    &&& forall|i: int, j: int|
        0 <= i < j < tokens.len() ==> (#[trigger] tokens[i]).span.1 <= (#[trigger] tokens[j]).span.0
}

/// What is left of placed tokens when some are taken from the front is
/// placed.
pub proof fn lemma_placed_skip(bytes: Seq<u8>, tokens: Seq<Token>, n: int)
    requires
        placed(bytes, tokens),
        0 <= n <= tokens.len(),
    ensures
        placed(bytes, tokens.skip(n)),
{
    let rest = tokens.skip(n);
    assert forall|i: int| 0 <= i < rest.len() implies fits(bytes, (#[trigger] rest[i]).span) by {
        assert(rest[i] == tokens[i + n]);
    }
    assert forall|i: int, j: int| 0 <= i < j < rest.len() implies (#[trigger] rest[i]).span.1 <= (
    #[trigger] rest[j]).span.0 by {
        assert(rest[i] == tokens[i + n]);
        assert(rest[j] == tokens[j + n]);
    }
}

/// Every token ends between two characters: a token ends behind a
/// delimiter, before one, or at the end of the text.
pub proof fn lemma_token_ends_on_boundary(bytes: Seq<u8>, pos: int)
    requires
        valid_utf8(bytes),
        0 <= pos < bytes.len(),
    ensures
        is_char_boundary(bytes, pos + token_len(bytes, pos)),
{
    let end = pos + token_len(bytes, pos);
    lemma_token_len(bytes, pos);
    lemma_run_len(bytes, pos + 1, backtick_bytes());
    lemma_run_len(bytes, pos + 1, plain_bytes());
    if is_delimiter(bytes[pos]) {
        assert(is_delimiter(bytes[end - 1]));
        lemma_boundaries_around_ascii(bytes, end - 1);
    } else if end < bytes.len() {
        assert(is_delimiter(bytes[end]));
        lemma_boundaries_around_ascii(bytes, end);
    } else {
        is_char_boundary_start_end_of_seq(bytes);
    }
}

/// The tokens of a text from a boundary on are placed, and none starts
/// before that boundary.
pub proof fn lemma_tokens_placed(bytes: Seq<u8>, pos: int)
    requires
        valid_utf8(bytes),
        0 <= pos <= bytes.len() <= usize::MAX,
        is_char_boundary(bytes, pos),
    ensures
        placed(bytes, tokens_from(bytes, pos)),
        forall|i: int|
            0 <= i < tokens_from(bytes, pos).len() ==> pos <= (#[trigger] tokens_from(
                bytes,
                pos,
            )[i]).span.0,
    decreases bytes.len() - pos,
{
    if pos < bytes.len() {
        lemma_token_len(bytes, pos);
        lemma_token_ends_on_boundary(bytes, pos);
        let next = pos + token_len(bytes, pos);
        lemma_tokens_placed(bytes, next);
        let tokens = tokens_from(bytes, pos);
        let later = tokens_from(bytes, next);
        assert forall|i: int| 0 <= i < tokens.len() implies fits(bytes, (#[trigger] tokens[i]).span)
            && pos <= tokens[i].span.0 by {
            if i > 0 {
                assert(tokens[i] == later[i - 1]);
            }
        }
        assert forall|i: int, j: int| 0 <= i < j < tokens.len() implies (
        #[trigger] tokens[i]).span.1 <= (#[trigger] tokens[j]).span.0 by {
            assert(tokens[j] == later[j - 1]);
            if i > 0 {
                assert(tokens[i] == later[i - 1]);
            }
        }
    }
}

/// The tokens of the UTF-8 bytes of a text are placed in it.
pub proof fn lemma_tokens_of_text_placed(text: Seq<char>)
    requires
        encode_utf8(text).len() <= usize::MAX,
    ensures
        placed(encode_utf8(text), tokens_of(encode_utf8(text))),
{
    encode_utf8_valid_utf8(text);
    lemma_tokens_placed(encode_utf8(text), 0);
}

} // verus!
