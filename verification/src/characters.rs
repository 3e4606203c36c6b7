//! The lexer in terms of characters. The lexer reads bytes; here the same
//! tokens are told character by character, and the two are shown to be the
//! same for every text.

use crate::lexer::{
    backtick_bytes, backtick_kind, is_backtick, is_plain, plain_bytes, token_at, token_len,
    tokens_from, tokens_of, Token, TokenKind, BACKTICK, LBRACKET, LPAREN, NEWLINE, RBRACKET,
    RPAREN,
};
use crate::runs::{lemma_run_len, lemma_run_len_unique, run_len};
use vstd::prelude::*;
use vstd::utf8::{char_is_scalar, encode_scalar, encode_utf8};

verus! {

/// Whether `c` is one of the six characters that are never part of a run
/// of ordinary text.
pub open spec fn is_delimiter_char(c: char) -> bool {
    c == '[' || c == ']' || c == '(' || c == ')' || c == '\n' || c == '`'
}

/// The class of the backtick.
pub open spec fn backtick_chars() -> spec_fn(char) -> bool {
    |c: char| c == '`'
}

/// The class of the characters of ordinary text.
pub open spec fn plain_chars() -> spec_fn(char) -> bool {
    |c: char| !is_delimiter_char(c)
}

/// The number of bytes of the first `count` characters of `text`.
pub open spec fn offset_of(text: Seq<char>, count: int) -> nat {
    encode_utf8(text.take(count)).len()
}

/// The number of characters of the token that starts with the character
/// at `at`.
pub open spec fn char_token_len(text: Seq<char>, at: int) -> nat {
    let c = text[at];
    if c == '`' {
        1 + run_len(text, at + 1, backtick_chars())
    } else if is_delimiter_char(c) {
        1
    } else {
        1 + run_len(text, at + 1, plain_chars())
    }
}

/// The kind of the token that starts with the character at `at`.
pub open spec fn char_token_kind(text: Seq<char>, at: int) -> TokenKind {
    let c = text[at];
    if c == '[' {
        TokenKind::LBracket
    } else if c == ']' {
        TokenKind::RBracket
    } else if c == '(' {
        TokenKind::LParen
    } else if c == ')' {
        TokenKind::RParen
    } else if c == '\n' {
        TokenKind::Newline
    } else if c == '`' {
        backtick_kind(char_token_len(text, at))
    } else {
        TokenKind::Text
    }
}

/// The token that starts with the character at `at`: its span runs from
/// the bytes before that character to the bytes before the first character
/// behind the token.
pub open spec fn char_token(text: Seq<char>, at: int) -> Token {
    Token {
        kind: char_token_kind(text, at),
        span: (
            offset_of(text, at) as usize,
            offset_of(text, at + char_token_len(text, at)) as usize,
        ),
    }
}

/// The tokens of `text` from the character at `at` on, told character by
/// character.
pub open spec fn char_tokens_from(text: Seq<char>, at: int) -> Seq<Token>
    decreases text.len() - at,
{
    if 0 <= at < text.len() {
        proof {
            lemma_run_len(text, at + 1, backtick_chars());
            lemma_run_len(text, at + 1, plain_chars());
        }
        seq![char_token(text, at)] + char_tokens_from(text, at + char_token_len(text, at))
    } else {
        Seq::empty()
    }
}

/// The bytes of two texts, one after the other, are the bytes of the two
/// texts put together.
pub proof fn lemma_encode_concat(first: Seq<char>, second: Seq<char>)
    ensures
        encode_utf8(first + second) == encode_utf8(first) + encode_utf8(second),
    decreases first.len(),
{
    if first.len() == 0 {
        assert(first + second =~= second);
        assert(encode_utf8(first) + encode_utf8(second) =~= encode_utf8(second));
    } else {
        assert((first + second).drop_first() =~= first.drop_first() + second);
        lemma_encode_concat(first.drop_first(), second);
        assert(encode_utf8(first + second) =~= encode_utf8(first) + encode_utf8(second));
    }
}

/// The bytes of a character: a character below 128 is the one byte of
/// its number, and every byte of any other character is 128 or more.
pub proof fn lemma_char_bytes(c: char)
    ensures
        encode_scalar(c as u32).len() >= 1,
        (c as u32) < 0x80 ==> encode_scalar(c as u32) == seq![(c as u32) as u8] && (
        c as u32) as u8 == c as u32,
        (c as u32) >= 0x80 ==> forall|j: int|
            0 <= j < encode_scalar(c as u32).len() ==> (#[trigger] encode_scalar(c as u32)[j])
                >= 0x80,
{
    let v = c as u32;
    char_is_scalar(c);
    if v < 0x80 {
        assert((v & 0x7F) as u8 == v as u8 && (v as u8) as u32 == v) by (bit_vector)
            requires
                v < 0x80,
        ;
        assert(encode_scalar(v) =~= seq![v as u8]);
    } else {
        let a = ((v >> 6) & 0x1F) as u8;
        let b = ((v >> 12) & 0x0F) as u8;
        let d = ((v >> 18) & 0x7) as u8;
        let l1 = (v & 0x3F) as u8;
        let l2 = ((v >> 6) & 0x3F) as u8;
        let l3 = ((v >> 12) & 0x3F) as u8;
        assert(forall|x: u8| #![auto] (0xC0u8 | x) >= 0x80 && (0xE0u8 | x) >= 0x80 && (0xF0u8 | x)
            >= 0x80 && (0x80u8 | x) >= 0x80) by (bit_vector);
        assert((0xC0u8 | a) >= 0x80 && (0xE0u8 | b) >= 0x80 && (0xF0u8 | d) >= 0x80);
        assert((0x80u8 | l1) >= 0x80 && (0x80u8 | l2) >= 0x80 && (0x80u8 | l3) >= 0x80);
    }
}

/// The bytes of `text` around the character at `at`: those of the
/// characters before it, its own, and the rest.
pub proof fn lemma_char_in_bytes(text: Seq<char>, at: int)
    requires
        0 <= at < text.len(),
    ensures
        offset_of(text, at + 1) == offset_of(text, at) + encode_scalar(text[at] as u32).len(),
        offset_of(text, at + 1) <= encode_utf8(text).len(),
        forall|j: int|
            0 <= j < encode_scalar(text[at] as u32).len() ==> encode_utf8(text)[offset_of(
                text,
                at,
            ) + j] == #[trigger] encode_scalar(text[at] as u32)[j],
{
    let before = text.take(at);
    let one = seq![text[at]];
    let rest = text.skip(at + 1);
    assert(text.take(at + 1) =~= before + one);
    assert(text =~= text.take(at + 1) + rest);
    lemma_encode_concat(before, one);
    lemma_encode_concat(text.take(at + 1), rest);
    assert(one.drop_first() =~= Seq::<char>::empty());
    assert(encode_utf8(one) =~= encode_scalar(text[at] as u32)) by {
        reveal_with_fuel(encode_utf8, 2);
    }
}

/// The bytes of all of `text` are the bytes of its characters.
pub proof fn lemma_offset_of_all(text: Seq<char>)
    ensures
        offset_of(text, text.len() as int) == encode_utf8(text).len(),
        offset_of(text, 0) == 0,
{
    assert(text.take(text.len() as int) =~= text);
    assert(text.take(0) =~= Seq::<char>::empty());
}

/// Whether the characters of `chars` are the characters whose bytes are
/// all of `bytes`, and the others are those whose first byte is not.
pub open spec fn same_class(chars: spec_fn(char) -> bool, bytes: spec_fn(u8) -> bool) -> bool {
    forall|c: char|
        #![trigger chars(c)]
        {
            &&& chars(c) ==> forall|j: int|
                0 <= j < encode_scalar(c as u32).len() ==> bytes(
                    #[trigger] encode_scalar(c as u32)[j],
                )
            &&& !chars(c) ==> !bytes(encode_scalar(c as u32)[0])
        }
}

/// The bytes of characters of one class are of the class of bytes that
/// goes with it.
proof fn lemma_class_bytes(
    text: Seq<char>,
    from: int,
    count: nat,
    chars: spec_fn(char) -> bool,
    bytes: spec_fn(u8) -> bool,
)
    requires
        0 <= from,
        from + count <= text.len(),
        same_class(chars, bytes),
        forall|i: int| from <= i < from + count ==> chars(#[trigger] text[i]),
    ensures
        offset_of(text, from) <= offset_of(text, from + count) <= encode_utf8(text).len(),
        forall|k: int|
            offset_of(text, from) <= k < offset_of(text, from + count) ==> bytes(
                #[trigger] encode_utf8(text)[k],
            ),
    decreases count,
{
    if count == 0 {
        if from < text.len() {
            lemma_char_in_bytes(text, from);
        } else {
            lemma_offset_of_all(text);
        }
    } else {
        let last = from + count - 1;
        lemma_class_bytes(text, from, (count - 1) as nat, chars, bytes);
        lemma_char_in_bytes(text, last);
        assert(chars(text[last]));
        assert forall|k: int|
            offset_of(text, from) <= k < offset_of(text, from + count) implies bytes(
            #[trigger] encode_utf8(text)[k],
        ) by {
            if k >= offset_of(text, last) {
                let j = k - offset_of(text, last);
                assert(encode_utf8(text)[offset_of(text, last) + j] == encode_scalar(
                    text[last] as u32,
                )[j]);
            }
        }
    }
}

/// A run of characters of one class is, in bytes, the run of the bytes of
/// the class that goes with it.
pub proof fn lemma_run_in_bytes(
    text: Seq<char>,
    from: int,
    chars: spec_fn(char) -> bool,
    bytes: spec_fn(u8) -> bool,
)
    requires
        0 <= from <= text.len(),
        same_class(chars, bytes),
    ensures
        offset_of(text, from) + run_len(encode_utf8(text), offset_of(text, from) as int, bytes)
            == offset_of(text, from + run_len(text, from, chars)),
{
    let count = run_len(text, from, chars);
    let end = from + count;
    lemma_run_len(text, from, chars);
    lemma_class_bytes(text, from, count, chars, bytes);
    if end < text.len() {
        lemma_char_in_bytes(text, end);
        lemma_char_bytes(text[end]);
        assert(!chars(text[end]));
        assert(encode_utf8(text)[offset_of(text, end) as int + 0] == encode_scalar(
            text[end] as u32,
        )[0]);
    } else {
        lemma_offset_of_all(text);
    }
    lemma_run_len_unique(
        encode_utf8(text),
        offset_of(text, from) as int,
        offset_of(text, end) as int,
        bytes,
    );
}

/// The bytes of the delimiters: each of the six characters is the one
/// byte of its name, no other character starts with one of these bytes,
/// and no byte of a character of ordinary text is one of them.
pub proof fn lemma_delimiter_bytes(c: char)
    ensures
        c == '[' <==> encode_scalar(c as u32)[0] == LBRACKET,
        c == ']' <==> encode_scalar(c as u32)[0] == RBRACKET,
        c == '(' <==> encode_scalar(c as u32)[0] == LPAREN,
        c == ')' <==> encode_scalar(c as u32)[0] == RPAREN,
        c == '\n' <==> encode_scalar(c as u32)[0] == NEWLINE,
        c == '`' <==> encode_scalar(c as u32)[0] == BACKTICK,
        is_delimiter_char(c) ==> encode_scalar(c as u32).len() == 1,
        !is_delimiter_char(c) ==> forall|j: int|
            0 <= j < encode_scalar(c as u32).len() ==> is_plain(
                #[trigger] encode_scalar(c as u32)[j],
            ),
{
    lemma_char_bytes(c);
    assert('[' as u32 == 0x5b && ']' as u32 == 0x5d && '(' as u32 == 0x28 && ')' as u32 == 0x29
        && '\n' as u32 == 0x0a && '`' as u32 == 0x60);
    if (c as u32) < 0x80 {
        assert(encode_scalar(c as u32)[0] == c as u32);
    } else {
        assert(encode_scalar(c as u32)[0] >= 0x80);
    }
}

/// The backtick is the character of the byte of the backtick, and the
/// characters of ordinary text are those of the bytes of ordinary text.
pub proof fn lemma_classes()
    ensures
        same_class(backtick_chars(), backtick_bytes()),
        same_class(plain_chars(), plain_bytes()),
{
    assert forall|c: char| #![trigger backtick_chars()(c)] {
        &&& backtick_chars()(c) ==> forall|j: int|
            0 <= j < encode_scalar(c as u32).len() ==> is_backtick(
                #[trigger] encode_scalar(c as u32)[j],
            )
        &&& !backtick_chars()(c) ==> !is_backtick(encode_scalar(c as u32)[0])
    } by {
        lemma_delimiter_bytes(c);
    }
    assert forall|c: char| #![trigger plain_chars()(c)] {
        &&& plain_chars()(c) ==> forall|j: int|
            0 <= j < encode_scalar(c as u32).len() ==> is_plain(
                #[trigger] encode_scalar(c as u32)[j],
            )
        &&& !plain_chars()(c) ==> !is_plain(encode_scalar(c as u32)[0])
    } by {
        lemma_delimiter_bytes(c);
    }
}

/// The token that the lexer finds at the bytes of a character is the
/// token that starts with that character.
pub proof fn lemma_token_of_char(text: Seq<char>, at: int)
    requires
        0 <= at < text.len(),
    ensures
        offset_of(text, at) < encode_utf8(text).len(),
        token_at(encode_utf8(text), offset_of(text, at) as int) == char_token(text, at),
        offset_of(text, at) + token_len(encode_utf8(text), offset_of(text, at) as int)
            == offset_of(text, at + char_token_len(text, at)),
        at + char_token_len(text, at) <= text.len(),
{
    let bytes = encode_utf8(text);
    let pos = offset_of(text, at) as int;
    let c = text[at];
    let width = encode_scalar(c as u32).len() as int;
    lemma_char_in_bytes(text, at);
    lemma_delimiter_bytes(c);
    lemma_classes();
    lemma_run_len(text, at + 1, backtick_chars());
    lemma_run_len(text, at + 1, plain_chars());
    assert(bytes[pos + 0] == encode_scalar(c as u32)[0]);
    assert(offset_of(text, at + 1) == pos + width);
    if c == '`' {
        lemma_run_in_bytes(text, at + 1, backtick_chars(), backtick_bytes());
        lemma_backtick_count(text, at + 1);
        assert(token_len(bytes, pos) == char_token_len(text, at));
    } else if is_delimiter_char(c) {
        assert(token_len(bytes, pos) == 1);
    } else {
        lemma_run_in_bytes(text, at + 1, plain_chars(), plain_bytes());
        let end = pos + width + run_len(bytes, pos + width, plain_bytes());
        lemma_run_len(bytes, pos + width, plain_bytes());
        assert forall|k: int| pos + 1 <= k < end implies plain_bytes()(#[trigger] bytes[k]) by {
            if k < pos + width {
                let j = k - pos;
                assert(bytes[pos + j] == encode_scalar(c as u32)[j]);
            }
        }
        lemma_run_len_unique(bytes, pos + 1, end, plain_bytes());
        assert(pos + token_len(bytes, pos) == end);
    }
}

/// A run of backticks has as many bytes as characters.
proof fn lemma_backtick_count(text: Seq<char>, from: int)
    requires
        0 <= from <= text.len(),
    ensures
        offset_of(text, from + run_len(text, from, backtick_chars())) == offset_of(text, from)
            + run_len(text, from, backtick_chars()),
    decreases text.len() - from,
{
    if from < text.len() && backtick_chars()(text[from]) {
        lemma_char_in_bytes(text, from);
        lemma_char_bytes(text[from]);
        lemma_backtick_count(text, from + 1);
    }
}

/// From a character on, the tokens that the lexer finds in the bytes are
/// the tokens told character by character.
pub proof fn lemma_tokens_from_char(text: Seq<char>, at: int)
    requires
        0 <= at <= text.len(),
        encode_utf8(text).len() <= usize::MAX,
    ensures
        tokens_from(encode_utf8(text), offset_of(text, at) as int) == char_tokens_from(text, at),
    decreases text.len() - at,
{
    if at < text.len() {
        lemma_token_of_char(text, at);
        lemma_tokens_from_char(text, at + char_token_len(text, at));
    } else {
        lemma_offset_of_all(text);
    }
}

/// The lexer classifies character by character: the tokens of the bytes
/// of a text are the tokens of its characters, with their places counted
/// in bytes.
pub proof fn lemma_lexing_is_by_character(text: Seq<char>)
    requires
        encode_utf8(text).len() <= usize::MAX,
    ensures
        tokens_of(encode_utf8(text)) == char_tokens_from(text, 0),
{
    lemma_offset_of_all(text);
    lemma_tokens_from_char(text, 0);
}

} // verus!
