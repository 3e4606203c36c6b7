//! What holds of the grammar and of the renderer for every input.

use crate::boundaries::slice_of;
use crate::grammar::{
    code_len, code_of, element_of, ends_text, is_link, lemma_element_consumes, link_of, note_of,
    paragraph_of, text_len,
};
use crate::lexer::{
    is_plain, plain_bytes, token_at, tokens_from, tokens_of, Token, TokenKind,
};
use crate::parser::{parse_of, TextElement};
use crate::render::{compile_of, note_html, paragraph_html};
use crate::runs::{lemma_run_len, lemma_run_len_unique};
use vstd::prelude::*;
use vstd::utf8::{encode_utf8, encode_utf8_decode_utf8};

verus! {

/// A text without any delimiter is one token of text, one paragraph with
/// one element, and is rendered as it stands between `<p>` and ` </p>`.
pub proof fn lemma_plain_prose(text: Seq<char>)
    requires
        0 < encode_utf8(text).len() <= usize::MAX,
        forall|i: int| 0 <= i < encode_utf8(text).len() ==> is_plain(#[trigger] encode_utf8(text)[i]),
    ensures
        tokens_of(encode_utf8(text)) == seq![
            Token { kind: TokenKind::Text, span: (0, encode_utf8(text).len() as usize) },
        ],
        parse_of(encode_utf8(text)) == Ok::<Seq<Seq<TextElement>>, Seq<char>>(
            seq![seq![TextElement::Text((0, encode_utf8(text).len() as usize))]],
        ),
        note_html(
            encode_utf8(text),
            seq![seq![TextElement::Text((0, encode_utf8(text).len() as usize))]],
        ) == "<p>"@ + text + " "@ + "</p>"@,
        compile_of(encode_utf8(text)) == Ok::<Seq<char>, Seq<char>>(
            "<p>"@ + text + " "@ + "</p>"@,
        ),
{
    let bytes = encode_utf8(text);
    let len = bytes.len() as int;
    let token = Token { kind: TokenKind::Text, span: (0, len as usize) };
    let element = TextElement::Text((0, len as usize));
    let tokens = seq![token];
    lemma_run_len_unique(bytes, 1, len, plain_bytes());
    assert(token_at(bytes, 0) == token);
    assert(tokens_from(bytes, len) =~= Seq::<Token>::empty());
    assert(tokens_of(bytes) =~= tokens);
    assert(text_len(tokens) == 1);
    assert(tokens.skip(1) =~= Seq::<Token>::empty());
    assert(element_of(tokens) == (Ok::<TextElement, Seq<char>>(element), Seq::<Token>::empty()));
    assert(Seq::<TextElement>::empty().push(element) =~= seq![element]);
    assert(paragraph_of(tokens, Seq::empty()) == (
        Ok::<Seq<TextElement>, Seq<char>>(seq![element]),
        Seq::<Token>::empty(),
    )) by {
        reveal_with_fuel(paragraph_of, 2);
    }
    assert(Seq::<Seq<TextElement>>::empty().push(seq![element]) =~= seq![seq![element]]);
    assert(note_of(tokens, Seq::empty()).0 == Ok::<Seq<Seq<TextElement>>, Seq<char>>(
        seq![seq![element]],
    )) by {
        reveal_with_fuel(note_of, 2);
    }
    assert(bytes.subrange(0, len) =~= bytes);
    encode_utf8_decode_utf8(text);
    assert(slice_of(bytes, (0, len as usize)) == text);
    assert(seq![element].drop_last() =~= Seq::<TextElement>::empty());
    assert(paragraph_html(bytes, seq![element]) =~= text + " "@) by {
        reveal_with_fuel(paragraph_html, 2);
    }
    assert(seq![seq![element]].drop_last() =~= Seq::<Seq<TextElement>>::empty());
    assert(note_html(bytes, seq![seq![element]]) =~= "<p>"@ + text + " "@ + "</p>"@) by {
        reveal_with_fuel(note_html, 2);
    }
}

/// A newline before a token that is no newline is dropped: the paragraph
/// is the one that starts after it.
pub proof fn lemma_single_newline_dropped(tokens: Seq<Token>, parts: Seq<TextElement>)
    requires
        tokens.len() >= 2,
        tokens[0].kind == TokenKind::Newline,
        tokens[1].kind != TokenKind::Newline,
    ensures
        paragraph_of(tokens, parts) == paragraph_of(tokens.skip(1), parts),
{
    let after = tokens.skip(1);
    assert(after[0] == tokens[1]);
}

/// Two newlines in a row end the paragraph: it holds what it had, and the
/// tokens after the pair are left.
pub proof fn lemma_blank_line_ends_paragraph(tokens: Seq<Token>, parts: Seq<TextElement>)
    requires
        tokens.len() >= 2,
        tokens[0].kind == TokenKind::Newline,
        tokens[1].kind == TokenKind::Newline,
    ensures
        paragraph_of(tokens, parts) == (
            Ok::<Seq<TextElement>, Seq<char>>(parts),
            tokens.skip(2),
        ),
{
    let after = tokens.skip(1);
    assert(after[0] == tokens[1]);
    assert(after.skip(1) =~= tokens.skip(2));
}

/// An element is found without a look past the first newline that follows
/// it: tokens added behind it, of which the first is a newline, are left
/// as they are.
pub proof fn lemma_element_before_newline(tokens: Seq<Token>, more: Seq<Token>)
    requires
        tokens.len() > 0,
        more.len() > 0,
        more[0].kind == TokenKind::Newline,
        element_of(tokens).0 is Ok,
    ensures
        element_of(tokens + more) == (element_of(tokens).0, element_of(tokens).1 + more),
{
    let all = tokens + more;
    assert(all[0] == tokens[0]);
    match tokens[0].kind {
        TokenKind::Text => {
            let class = |t: Token| !ends_text(t.kind);
            lemma_run_len(tokens, 1, class);
            let n = text_len(tokens) as int;
            assert forall|i: int| 1 <= i < n implies class(#[trigger] all[i]) by {
                assert(all[i] == tokens[i]);
            }
            if n < tokens.len() {
                assert(all[n] == tokens[n]);
            } else {
                assert(all[n] == more[0]);
            }
            lemma_run_len_unique(all, 1, n, class);
            assert(all[n - 1] == tokens[n - 1]);
            assert(all.skip(n) =~= tokens.skip(n) + more);
        },
        TokenKind::Backtick => {
            lemma_code_before_more(tokens, more, TokenKind::Backtick);
        },
        TokenKind::TripleBacktick => {
            lemma_code_before_more(tokens, more, TokenKind::TripleBacktick);
        },
        TokenKind::LBracket => {
            assert(is_link(tokens));
            assert(all[1] == tokens[1]);
            assert(all[2] == tokens[2]);
            assert(all[3] == tokens[3]);
            assert(all[4] == tokens[4]);
            assert(all[5] == tokens[5]);
            assert(all.skip(6) =~= tokens.skip(6) + more);
        },
        _ => {},
    }
}

proof fn lemma_code_before_more(tokens: Seq<Token>, more: Seq<Token>, closer: TokenKind)
    requires
        tokens.len() > 0,
        code_of(tokens, closer).0 is Some,
    ensures
        code_of(tokens + more, closer) == (
            code_of(tokens, closer).0,
            code_of(tokens, closer).1 + more,
        ),
{
    let all = tokens + more;
    let class = |t: Token| t.kind != closer;
    lemma_run_len(tokens, 1, class);
    let inside = code_len(tokens, closer) as int;
    assert forall|i: int| 1 <= i < 1 + inside implies class(#[trigger] all[i]) by {
        assert(all[i] == tokens[i]);
    }
    assert(all[1 + inside] == tokens[1 + inside]);
    lemma_run_len_unique(all, 1, 1 + inside, class);
    assert(all[0] == tokens[0]);
    assert(all[inside] == tokens[inside]);
    assert(all.skip(inside + 2) =~= tokens.skip(inside + 2) + more);
}

/// A blank line splits: where `head` is a whole paragraph that does not
/// end in a newline, `head`, two newlines and `tail` are that paragraph
/// and, left over, `tail`.
pub proof fn lemma_blank_line_splits(
    head: Seq<Token>,
    first: Token,
    second: Token,
    tail: Seq<Token>,
    parts: Seq<TextElement>,
)
    requires
        head.len() > 0,
        head.last().kind != TokenKind::Newline,
        first.kind == TokenKind::Newline,
        second.kind == TokenKind::Newline,
        paragraph_of(head, parts).0 is Ok,
        paragraph_of(head, parts).1.len() == 0,
    ensures
        paragraph_of(head + seq![first, second] + tail, parts) == (
            paragraph_of(head, parts).0,
            tail,
        ),
    decreases head.len(),
{
    let more = seq![first, second] + tail;
    let all = head + seq![first, second] + tail;
    assert(all =~= head + more);
    assert(all[0] == head[0]);
    let newline = head[0].kind == TokenKind::Newline;
    let after = if newline {
        head.skip(1)
    } else {
        head
    };
    let after_all = if newline {
        all.skip(1)
    } else {
        all
    };
    assert(after_all =~= after + more);
    if newline {
        assert(head.len() >= 2);
        assert(after.last() == head.last());
        if after[0].kind == TokenKind::Newline {
            assert(after.skip(1).len() == 0);
            assert(false);
        }
    }
    assert(after.len() > 0);
    assert(after_all[0] == after[0]);
    lemma_element_consumes(after);
    lemma_element_before_newline(after, more);
    match element_of(after) {
        (Ok(element), rest) => {
            let n = choose|n: int| 0 <= n <= after.len() && rest == #[trigger] after.skip(n);
            if rest.len() == 0 {
                assert(rest + more =~= more);
                assert(more[0] == first);
                assert(more[1] == second);
                assert(more.skip(2) =~= tail);
                lemma_blank_line_ends_paragraph(more, parts.push(element));
                assert(paragraph_of(rest, parts.push(element)) == (
                    Ok::<Seq<TextElement>, Seq<char>>(parts.push(element)),
                    rest,
                ));
            } else {
                assert(rest.last() == after.last());
                lemma_blank_line_splits(rest, first, second, tail, parts.push(element));
                assert(rest + seq![first, second] + tail =~= rest + more);
            }
        },
        (Err(message), rest) => {},
    }
}

/// A blank line starts a new paragraph: where `head` is a whole paragraph
/// that does not end in a newline, the note of `head`, two newlines and
/// `tail` is that paragraph and then the note of `tail`.
pub proof fn lemma_blank_line_starts_paragraph(
    head: Seq<Token>,
    first: Token,
    second: Token,
    tail: Seq<Token>,
    paragraphs: Seq<Seq<TextElement>>,
)
    requires
        head.len() > 0,
        head.last().kind != TokenKind::Newline,
        first.kind == TokenKind::Newline,
        second.kind == TokenKind::Newline,
        paragraph_of(head, Seq::empty()).0 is Ok,
        paragraph_of(head, Seq::empty()).1.len() == 0,
    ensures
        note_of(head + seq![first, second] + tail, paragraphs) == note_of(
            tail,
            paragraphs.push(paragraph_of(head, Seq::empty()).0->Ok_0),
        ),
{
    lemma_blank_line_splits(head, first, second, tail, Seq::empty());
}

/// A third newline is dropped without a paragraph of its own: before a
/// token that is no newline it changes nothing in the note.
pub proof fn lemma_stray_newline_dropped(tokens: Seq<Token>, paragraphs: Seq<Seq<TextElement>>)
    requires
        tokens.len() >= 2,
        tokens[0].kind == TokenKind::Newline,
        tokens[1].kind != TokenKind::Newline,
    ensures
        note_of(tokens, paragraphs) == note_of(tokens.skip(1), paragraphs),
{
    lemma_single_newline_dropped(tokens, Seq::empty());
}

/// A link is parsed from the tokens that have its shape and from no
/// others.
pub proof fn lemma_link_is_strict(tokens: Seq<Token>)
    ensures
        link_of(tokens).0 is Ok <==> is_link(tokens),
        is_link(tokens) ==> link_of(tokens) == (
            Ok::<TextElement, Seq<char>>(
                TextElement::Link { title: tokens[1].span, href: tokens[4].span },
            ),
            tokens.skip(6),
        ),
{
}

/// An opening bracket that no link follows fails the element, the
/// paragraph and the note: nothing is put out for them.
pub proof fn lemma_broken_link_fails(
    tokens: Seq<Token>,
    parts: Seq<TextElement>,
    paragraphs: Seq<Seq<TextElement>>,
)
    requires
        tokens.len() > 0,
        tokens[0].kind == TokenKind::LBracket,
        !is_link(tokens),
    ensures
        element_of(tokens).0 is Err,
        paragraph_of(tokens, parts).0 == Err::<Seq<TextElement>, Seq<char>>(
            element_of(tokens).0->Err_0,
        ),
        note_of(tokens, paragraphs).0 == Err::<Seq<Seq<TextElement>>, Seq<char>>(
            element_of(tokens).0->Err_0,
        ),
{
    lemma_link_is_strict(tokens);
}

/// The renderer is a function of the tree and the buffer: what it gives
/// for them once it gives for them again.
pub proof fn lemma_render_repeats(
    bytes: Seq<u8>,
    paragraphs: Seq<Seq<TextElement>>,
    once: Seq<char>,
    again: Seq<char>,
)
    requires
        once == note_html(bytes, paragraphs),
        again == note_html(bytes, paragraphs),
    ensures
        once == again,
{
}

} // verus!
