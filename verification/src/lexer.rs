//! The lexer: from a text buffer to classified tokens with byte positions.
//!
//! The lexer reads the UTF-8 bytes of the buffer. The six delimiters are
//! below 128, and in UTF-8 such a byte is always a character of its own, so
//! the bytes it tells apart are the characters `[`, `]`, `(`, `)`, the line
//! feed and the backtick, and no token cuts a character in two. The module
//! `characters` tells the same tokens character by character and proves
//! that they are the same.

use crate::boundaries::{lemma_tokens_of_text_placed, placed};
use crate::characters::{char_tokens_from, lemma_lexing_is_by_character};
use crate::runs::{lemma_run_len, lemma_run_len_unique, run_len};
use vstd::prelude::*;
use vstd::utf8::encode_utf8;

verus! {

/// A half-open interval `[start, end)` of byte offsets into a buffer.
pub type Span = (usize, usize);

/// The byte of `[`.
pub const LBRACKET: u8 = 0x5b;

/// The byte of `]`.
pub const RBRACKET: u8 = 0x5d;

/// The byte of `(`.
pub const LPAREN: u8 = 0x28;

/// The byte of `)`.
pub const RPAREN: u8 = 0x29;

/// The byte of the line feed.
pub const NEWLINE: u8 = 0x0a;

/// The byte of the backtick.
pub const BACKTICK: u8 = 0x60;

/// What a token is.
#[derive(Debug, PartialEq, Eq, Clone, Copy, Structural)]
pub enum TokenKind {
    Text,
    Newline,
    LBracket,
    RBracket,
    LParen,
    RParen,
    Backtick,
    TripleBacktick,
}

/// A lexical unit: its kind and the bytes of the buffer it covers.
#[derive(Debug, PartialEq, Clone, Copy)]
pub struct Token {
    pub kind: TokenKind,
    pub span: Span,
}

/// Whether `b` is one of the six bytes that are never part of a run of
/// ordinary text: `[`, `]`, `(`, `)`, a line feed or a backtick.
pub open spec fn is_delimiter(b: u8) -> bool {
    b == LBRACKET || b == RBRACKET || b == LPAREN || b == RPAREN || b == NEWLINE || b == BACKTICK
}

/// Whether `b` is a backtick.
pub open spec fn is_backtick(b: u8) -> bool {
    b == BACKTICK
}

/// Whether `b` can stand inside a run of ordinary text.
pub open spec fn is_plain(b: u8) -> bool {
    !is_delimiter(b)
}

/// The class of the backtick.
pub open spec fn backtick_bytes() -> spec_fn(u8) -> bool {
    |b: u8| is_backtick(b)
}

/// The class of the bytes of ordinary text.
pub open spec fn plain_bytes() -> spec_fn(u8) -> bool {
    |b: u8| is_plain(b)
}

fn backtick_byte(b: u8) -> (r: bool)
    ensures
        r == is_backtick(b),
{
    b == BACKTICK
}

fn plain_byte(b: u8) -> (r: bool)
    ensures
        r == is_plain(b),
{
    !(b == LBRACKET || b == RBRACKET || b == LPAREN || b == RPAREN || b == NEWLINE || b
        == BACKTICK)
}

/// The kind of the token that a run of `count` backticks makes.
pub open spec fn backtick_kind(count: nat) -> TokenKind {
    if count == 1 {
        TokenKind::Backtick
    } else if count == 3 {
        TokenKind::TripleBacktick
    } else {
        TokenKind::Text
    }
}

/// The number of bytes of the token that starts at `pos`, for `pos` inside
/// `bytes`.
pub open spec fn token_len(bytes: Seq<u8>, pos: int) -> nat {
    let b = bytes[pos];
    if b == BACKTICK {
        1 + run_len(bytes, pos + 1, backtick_bytes())
    } else if is_delimiter(b) {
        1
    } else {
        1 + run_len(bytes, pos + 1, plain_bytes())
    }
}

/// The kind of the token that starts at `pos`, for `pos` inside `bytes`.
pub open spec fn token_kind(bytes: Seq<u8>, pos: int) -> TokenKind {
    let b = bytes[pos];
    if b == LBRACKET {
        TokenKind::LBracket
    } else if b == RBRACKET {
        TokenKind::RBracket
    } else if b == LPAREN {
        TokenKind::LParen
    } else if b == RPAREN {
        TokenKind::RParen
    } else if b == NEWLINE {
        TokenKind::Newline
    } else if b == BACKTICK {
        backtick_kind(token_len(bytes, pos))
    } else {
        TokenKind::Text
    }
}

/// The token that starts at `pos`, for `pos` inside `bytes`.
pub open spec fn token_at(bytes: Seq<u8>, pos: int) -> Token {
    Token { kind: token_kind(bytes, pos), span: (pos as usize, (pos + token_len(bytes, pos)) as usize) }
}

/// The tokens of `bytes` from `pos` to the end of the buffer, in order.
pub open spec fn tokens_from(bytes: Seq<u8>, pos: int) -> Seq<Token>
    decreases bytes.len() - pos,
{
    if 0 <= pos < bytes.len() {
        proof {
            lemma_token_len(bytes, pos);
        }
        seq![token_at(bytes, pos)] + tokens_from(bytes, pos + token_len(bytes, pos))
    } else {
        Seq::empty()
    }
}

/// The tokens of a whole buffer.
pub open spec fn tokens_of(bytes: Seq<u8>) -> Seq<Token> {
    tokens_from(bytes, 0)
}

/// A token is never empty and never reaches past the end of the buffer.
pub proof fn lemma_token_len(bytes: Seq<u8>, pos: int)
    requires
        0 <= pos < bytes.len(),
    ensures
        1 <= token_len(bytes, pos),
        pos + token_len(bytes, pos) <= bytes.len(),
{
    lemma_run_len(bytes, pos + 1, backtick_bytes());
    lemma_run_len(bytes, pos + 1, plain_bytes());
}

/// The bytes of `bytes` that the spans of `tokens` cover, one span after
/// the other.
pub open spec fn covered(bytes: Seq<u8>, tokens: Seq<Token>) -> Seq<u8>
    decreases tokens.len(),
{
    if tokens.len() == 0 {
        Seq::empty()
    } else {
        bytes.subrange(tokens[0].span.0 as int, tokens[0].span.1 as int) + covered(
            bytes,
            tokens.drop_first(),
        )
    }
}

/// Whether `tokens` tile the interval from `start` to `end`: no token is
/// empty, the first starts at `start`, each of the others starts where the
/// one before it ends, and the last ends at `end`.
pub open spec fn tiles(tokens: Seq<Token>, start: int, end: int) -> bool {
    &&& forall|i: int| 0 <= i < tokens.len() ==> (#[trigger] tokens[i]).span.0 < tokens[i].span.1
    &&& forall|i: int, j: int|
        0 <= i && j == i + 1 && j < tokens.len() ==> (#[trigger] tokens[i]).span.1
            == (#[trigger] tokens[j]).span.0
    &&& if tokens.len() == 0 {
        start == end
    } else {
        tokens[0].span.0 == start && tokens.last().span.1 == end
    }
}

/// The spans of the tokens from `pos` on, one after the other, give back
/// the buffer from `pos` on.
pub proof fn lemma_tokens_cover(bytes: Seq<u8>, pos: int)
    requires
        0 <= pos <= bytes.len() <= usize::MAX,
    ensures
        covered(bytes, tokens_from(bytes, pos)) == bytes.subrange(pos, bytes.len() as int),
    decreases bytes.len() - pos,
{
    if pos < bytes.len() {
        lemma_token_len(bytes, pos);
        let next = pos + token_len(bytes, pos);
        lemma_tokens_cover(bytes, next);
        assert(tokens_from(bytes, pos).drop_first() =~= tokens_from(bytes, next));
        assert(bytes.subrange(pos, next) + bytes.subrange(next, bytes.len() as int)
            =~= bytes.subrange(pos, bytes.len() as int));
    } else {
        assert(bytes.subrange(pos, bytes.len() as int) =~= Seq::<u8>::empty());
    }
}

/// The tokens from `pos` on tile the buffer from `pos` to its end.
pub proof fn lemma_tokens_tile(bytes: Seq<u8>, pos: int)
    requires
        0 <= pos <= bytes.len() <= usize::MAX,
    ensures
        tiles(tokens_from(bytes, pos), pos, bytes.len() as int),
    decreases bytes.len() - pos,
{
    if pos < bytes.len() {
        lemma_token_len(bytes, pos);
        let next = pos + token_len(bytes, pos);
        lemma_tokens_tile(bytes, next);
        let tokens = tokens_from(bytes, pos);
        let later = tokens_from(bytes, next);
        assert forall|i: int| 0 <= i < tokens.len() implies (#[trigger] tokens[i]).span.0
            < tokens[i].span.1 by {
            if i > 0 {
                assert(tokens[i] == later[i - 1]);
            }
        }
        assert forall|i: int, j: int| 0 <= i && j == i + 1 && j < tokens.len() implies (
        #[trigger] tokens[i]).span.1 == (#[trigger] tokens[j]).span.0 by {
            assert(tokens[j] == later[i]);
            if i > 0 {
                assert(tokens[i] == later[i - 1]);
            }
        }
        if later.len() > 0 {
            assert(tokens.last() == later.last());
        }
    }
}

/// Every buffer is covered by its tokens: their spans, in order, give it
/// back byte for byte, with no gap and no overlap.
pub proof fn lemma_lexer_covers_buffer(bytes: Seq<u8>)
    requires
        bytes.len() <= usize::MAX,
    ensures
        covered(bytes, tokens_of(bytes)) == bytes,
        tiles(tokens_of(bytes), 0, bytes.len() as int),
{
    lemma_tokens_cover(bytes, 0);
    lemma_tokens_tile(bytes, 0);
    assert(bytes.subrange(0, bytes.len() as int) =~= bytes);
}

/// A run of `count` backticks that cannot be made longer is one token: a
/// `Backtick` where `count` is 1, a `TripleBacktick` where it is 3, and
/// text that covers the whole run otherwise.
pub proof fn lemma_backtick_run_token(bytes: Seq<u8>, pos: int, count: nat)
    requires
        0 <= pos,
        1 <= count,
        pos + count <= bytes.len() <= usize::MAX,
        forall|i: int| pos <= i < pos + count ==> #[trigger] bytes[i] == BACKTICK,
        pos + count < bytes.len() ==> bytes[pos + count] != BACKTICK,
    ensures
        tokens_from(bytes, pos)[0] == token_at(bytes, pos),
        token_at(bytes, pos).span == (pos as usize, (pos + count) as usize),
        token_at(bytes, pos).kind == if count == 1 {
            TokenKind::Backtick
        } else if count == 3 {
            TokenKind::TripleBacktick
        } else {
            TokenKind::Text
        },
{
    lemma_run_len_unique(bytes, pos + 1, pos + count, backtick_bytes());
}

/// The lexer: a buffer and the offset of the first byte not yet turned into
/// a token.
#[derive(Clone, Copy)]
pub struct Lexer<'a> {
    bytes: &'a [u8],
    pos: usize,
}

impl<'a> View for Lexer<'a> {
    type V = Seq<Token>;

    /// The tokens that are still to come.
    open spec fn view(&self) -> Seq<Token> {
        tokens_from(self.source(), self.offset())
    }
}

impl<'a> Lexer<'a> {
    #[verifier::type_invariant]
    spec fn in_bounds(&self) -> bool {
        self.pos <= self.bytes@.len()
    }

    /// The bytes of the buffer that is being lexed.
    pub closed spec fn source(&self) -> Seq<u8> {
        self.bytes@
    }

    /// The offset of the first byte that no token covers yet.
    pub closed spec fn offset(&self) -> int {
        self.pos as int
    }

    /// A lexer at the start of `input`.
    pub fn new(input: &'a str) -> (lexer: Lexer<'a>)
        ensures
            lexer.source() == encode_utf8(input@),
            lexer.source().len() <= usize::MAX,
            lexer.offset() == 0,
            lexer@ == tokens_of(encode_utf8(input@)),
            lexer@ == char_tokens_from(input@, 0),
            placed(lexer.source(), lexer@),
    {
        let bytes = input.as_bytes();
        assert(bytes@.len() == bytes.len());
        proof {
            lemma_tokens_of_text_placed(input@);
            lemma_lexing_is_by_character(input@);
        }
        Lexer { bytes, pos: 0 }
    }

    fn current_pos(&self) -> (pos: usize)
        ensures
            pos == self.offset(),
            pos <= self.source().len(),
    {
        proof {
            use_type_invariant(self);
        }
        self.pos
    }

    fn peek(&self) -> (next: Option<u8>)
        ensures
            next == if self.offset() < self.source().len() {
                Some(self.source()[self.offset()])
            } else {
                None
            },
    {
        if self.pos < self.bytes.len() {
            Some(self.bytes[self.pos])
        } else {
            None
        }
    }

    fn munch(&mut self) -> (next: Option<u8>)
        ensures
            final(self).source() == old(self).source(),
            next == if old(self).offset() < old(self).source().len() {
                Some(old(self).source()[old(self).offset()])
            } else {
                None
            },
            final(self).offset() == if next is Some {
                old(self).offset() + 1
            } else {
                old(self).offset()
            },
    {
        if self.pos < self.bytes.len() {
            let b = self.bytes[self.pos];
            self.pos = self.pos + 1;
            Some(b)
        } else {
            None
        }
    }

    /// Takes bytes as long as `pred` holds of the next one.
    fn eat_while<F: Fn(u8) -> bool>(&mut self, pred: F)
        requires
            forall|b: u8| call_requires(pred, (b,)),
        ensures
            final(self).source() == old(self).source(),
            old(self).offset() <= final(self).offset() <= old(self).source().len(),
            forall|i: int|
                old(self).offset() <= i < final(self).offset() ==> call_ensures(
                    pred,
                    (#[trigger] old(self).source()[i],),
                    true,
                ),
            final(self).offset() < old(self).source().len() ==> call_ensures(
                pred,
                (old(self).source()[final(self).offset()],),
                false,
            ),
    {
        proof {
            use_type_invariant(&*self);
        }
        loop
            invariant_except_break
                self.source() == old(self).source(),
                old(self).offset() <= self.offset() <= self.source().len(),
                forall|b: u8| call_requires(pred, (b,)),
                forall|i: int|
                    old(self).offset() <= i < self.offset() ==> call_ensures(
                        pred,
                        (#[trigger] old(self).source()[i],),
                        true,
                    ),
            ensures
                self.source() == old(self).source(),
                old(self).offset() <= self.offset() <= self.source().len(),
                forall|i: int|
                    old(self).offset() <= i < self.offset() ==> call_ensures(
                        pred,
                        (#[trigger] old(self).source()[i],),
                        true,
                    ),
                self.offset() < self.source().len() ==> call_ensures(
                    pred,
                    (self.source()[self.offset()],),
                    false,
                ),
            decreases self.source().len() - self.offset(),
        {
            match self.peek() {
                Some(c) => {
                    if !pred(c) {
                        break ;
                    }
                    self.munch();
                },
                None => {
                    break ;
                },
            }
        }
    }

    /// What one step of the lexer does: `token` is what it hands out and
    /// `after` is the lexer it leaves.
    pub open spec fn steps_to(&self, token: Option<Token>, after: &Lexer<'a>) -> bool {
        &&& after.source() == self.source()
        &&& if self.offset() < self.source().len() {
            &&& token == Some(token_at(self.source(), self.offset()))
            &&& after.offset() == self.offset() + token_len(self.source(), self.offset())
        } else {
            &&& token is None
            &&& after.offset() == self.offset()
        }
    }

    fn eat_next(&mut self) -> (token: Option<Token>)
        ensures
            old(self).steps_to(token, final(self)),
    {
        let start = self.current_pos();
        let next = self.munch();
        if next.is_none() {
            return None;
        }
        let next = next.unwrap();
        let kind = if next == LBRACKET {
            TokenKind::LBracket
        } else if next == RBRACKET {
            TokenKind::RBracket
        } else if next == LPAREN {
            TokenKind::LParen
        } else if next == RPAREN {
            TokenKind::RParen
        } else if next == NEWLINE {
            TokenKind::Newline
        } else if next == BACKTICK {
            self.eat_backticks(start)
        } else {
            self.eat_text()
        };
        let end = self.current_pos();
        Some(Token { kind, span: (start, end) })
    }

    fn eat_backticks(&mut self, first_tick_pos: usize) -> (kind: TokenKind)
        requires
            old(self).offset() == first_tick_pos + 1,
            old(self).offset() <= old(self).source().len(),
            old(self).source()[first_tick_pos as int] == BACKTICK,
        ensures
            final(self).source() == old(self).source(),
            final(self).offset() == first_tick_pos + token_len(
                old(self).source(),
                first_tick_pos as int,
            ),
            kind == token_kind(old(self).source(), first_tick_pos as int),
    {
        self.eat_while(backtick_byte);
        proof {
            lemma_run_len_unique(
                self.source(),
                first_tick_pos + 1,
                self.offset(),
                backtick_bytes(),
            );
        }
        let count = self.current_pos() - first_tick_pos;
        if count == 1 {
            TokenKind::Backtick
        } else if count == 3 {
            TokenKind::TripleBacktick
        } else {
            TokenKind::Text
        }
    }

    fn eat_text(&mut self) -> (kind: TokenKind)
        requires
            1 <= old(self).offset() <= old(self).source().len(),
            is_plain(old(self).source()[old(self).offset() - 1]),
        ensures
            final(self).source() == old(self).source(),
            final(self).offset() == old(self).offset() - 1 + token_len(
                old(self).source(),
                old(self).offset() - 1,
            ),
            kind == token_kind(old(self).source(), old(self).offset() - 1),
    {
        self.eat_while(plain_byte);
        proof {
            lemma_run_len_unique(
                self.source(),
                old(self).offset(),
                self.offset(),
                plain_bytes(),
            );
        }
        TokenKind::Text
    }

    /// Hands out the next token, or `None` at the end of the buffer.
    pub fn next(&mut self) -> (token: Option<Token>)
        ensures
            old(self).steps_to(token, final(self)),
            token == if old(self)@.len() > 0 {
                Some(old(self)@[0])
            } else {
                None
            },
            final(self)@ == if old(self)@.len() > 0 {
                old(self)@.drop_first()
            } else {
                old(self)@
            },
    {
        let token = self.eat_next();
        proof {
            if old(self).offset() < old(self).source().len() {
                assert(final(self)@ =~= old(self)@.drop_first());
            }
        }
        token
    }

    /// Runs the lexer to the end of the buffer and hands out every token
    /// that was still to come.
    pub fn collect(self) -> (tokens: Vec<Token>)
        ensures
            tokens@ == self@,
            self.offset() <= self.source().len(),
            covered(self.source(), tokens@) == self.source().subrange(
                self.offset(),
                self.source().len() as int,
            ),
            tiles(tokens@, self.offset(), self.source().len() as int),
    {
        proof {
            use_type_invariant(&self);
            assert(self.bytes@.len() == self.bytes.len());
            lemma_tokens_cover(self.source(), self.offset());
            lemma_tokens_tile(self.source(), self.offset());
        }
        let mut lexer = self;
        let mut tokens: Vec<Token> = Vec::new();
        loop
            invariant_except_break
                tokens@ + lexer@ == self@,
            ensures
                tokens@ == self@,
            decreases lexer@.len(),
        {
            match lexer.next() {
                Some(token) => {
                    tokens.push(token);
                },
                None => {
                    break ;
                },
            }
        }
        tokens
    }

    /// The same lexer with one token of lookahead.
    pub fn peekable(self) -> (tokens: Peekable<'a>)
        ensures
            tokens.source() == self.source(),
            tokens.offset() == self.offset(),
            tokens@ == self@,
    {
        Peekable { lexer: self, peeked: None }
    }
}

/// A lexer with one token of lookahead: the next token can be looked at
/// before it is taken.
pub struct Peekable<'a> {
    lexer: Lexer<'a>,
    peeked: Option<Option<Token>>,
}

impl<'a> View for Peekable<'a> {
    type V = Seq<Token>;

    /// The tokens that are still to come, the one looked at included.
    open spec fn view(&self) -> Seq<Token> {
        tokens_from(self.source(), self.offset())
    }
}

impl<'a> Peekable<'a> {
    #[verifier::type_invariant]
    spec fn lookahead_matches(&self) -> bool {
        match self.peeked {
            None => true,
            Some(None) => self.lexer.offset() >= self.lexer.source().len(),
            Some(Some(token)) => {
                &&& token.span.0 < self.lexer.source().len()
                &&& token == token_at(self.lexer.source(), token.span.0 as int)
                &&& self.lexer.offset() == token.span.0 + token_len(
                    self.lexer.source(),
                    token.span.0 as int,
                )
            },
        }
    }

    /// The bytes of the buffer that is being lexed.
    pub closed spec fn source(&self) -> Seq<u8> {
        self.lexer.source()
    }

    /// The offset of the first byte of the next token that `next` hands out.
    pub closed spec fn offset(&self) -> int {
        match self.peeked {
            Some(Some(token)) => token.span.0 as int,
            _ => self.lexer.offset(),
        }
    }

    /// What taking one token does: `token` is what is handed out and `after`
    /// is what is left.
    pub open spec fn steps_to(&self, token: Option<Token>, after: &Peekable<'a>) -> bool {
        &&& after.source() == self.source()
        &&& if self.offset() < self.source().len() {
            &&& token == Some(token_at(self.source(), self.offset()))
            &&& after.offset() == self.offset() + token_len(self.source(), self.offset())
        } else {
            &&& token is None
            &&& after.offset() == self.offset()
        }
    }

    /// The next token, which stays in place.
    pub fn peek(&mut self) -> (token: Option<Token>)
        ensures
            final(self).source() == old(self).source(),
            final(self).offset() == old(self).offset(),
            final(self)@ == old(self)@,
            token == if old(self).offset() < old(self).source().len() {
                Some(token_at(old(self).source(), old(self).offset()))
            } else {
                None
            },
            token == if old(self)@.len() > 0 {
                Some(old(self)@[0])
            } else {
                None
            },
    {
        proof {
            use_type_invariant(&*self);
        }
        match self.peeked {
            Some(token) => token,
            None => {
                let mut lexer = self.lexer;
                let token = lexer.next();
                self.lexer = lexer;
                self.peeked = Some(token);
                token
            },
        }
    }

    /// Takes the next token, or hands out `None` at the end of the buffer.
    pub fn next(&mut self) -> (token: Option<Token>)
        ensures
            old(self).steps_to(token, final(self)),
            token == if old(self)@.len() > 0 {
                Some(old(self)@[0])
            } else {
                None
            },
            final(self)@ == if old(self)@.len() > 0 {
                old(self)@.drop_first()
            } else {
                old(self)@
            },
    {
        proof {
            use_type_invariant(&*self);
        }
        let token = match self.peeked {
            Some(token) => {
                self.peeked = None;
                token
            },
            None => {
                let mut lexer = self.lexer;
                let token = lexer.next();
                self.lexer = lexer;
                token
            },
        };
        proof {
            if old(self).offset() < old(self).source().len() {
                assert(final(self)@ =~= old(self)@.drop_first());
            }
        }
        token
    }
}

} // verus!
