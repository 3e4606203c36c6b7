use just_text::lexer::TokenKind::{
    Backtick, LBracket, LParen, Newline, RBracket, RParen, Text, TripleBacktick,
};
use just_text::lexer::{Lexer, Token, TokenKind};

fn toks(parts: &[(TokenKind, usize)]) -> Vec<Token> {
    let mut tokens = vec![];
    let mut end = 0;
    for (kind, len) in parts {
        end += len;
        tokens.push(Token {
            kind: *kind,
            span: (end - len, end),
        });
    }
    tokens
}

#[test]
fn lex1() {
    let input = "This is a test
with a `couple` of [lines](http://test.com)
```
And some preformatted
text
```";
    assert_eq!(
        Lexer::new(input).collect(),
        toks(&[
            (Text, 14),
            (Newline, 1),
            (Text, 7),
            (Backtick, 1),
            (Text, 6),
            (Backtick, 1),
            (Text, 4),
            (LBracket, 1),
            (Text, 5),
            (RBracket, 1),
            (LParen, 1),
            (Text, 15),
            (RParen, 1),
            (Newline, 1),
            (TripleBacktick, 3),
            (Newline, 1),
            (Text, 21),
            (Newline, 1),
            (Text, 4),
            (Newline, 1),
            (TripleBacktick, 3)
        ])
    );
}

#[test]
fn lex_empty_input_has_no_tokens() {
    assert_eq!(Lexer::new("").collect(), vec![]);
    assert_eq!(Lexer::new("").next(), None);
}

#[test]
fn lex_single_delimiters() {
    assert_eq!(
        Lexer::new("[]()\n").collect(),
        toks(&[(LBracket, 1), (RBracket, 1), (LParen, 1), (RParen, 1), (Newline, 1)])
    );
}

#[test]
fn lex_backtick_runs_by_length() {
    assert_eq!(Lexer::new("`").collect(), toks(&[(Backtick, 1)]));
    assert_eq!(Lexer::new("``").collect(), toks(&[(Text, 2)]));
    assert_eq!(Lexer::new("```").collect(), toks(&[(TripleBacktick, 3)]));
    assert_eq!(Lexer::new("````").collect(), toks(&[(Text, 4)]));
    assert_eq!(Lexer::new("`````").collect(), toks(&[(Text, 5)]));
    assert_eq!(
        Lexer::new("a``b").collect(),
        toks(&[(Text, 1), (Text, 2), (Text, 1)])
    );
    assert_eq!(
        Lexer::new("`a```").collect(),
        toks(&[(Backtick, 1), (Text, 1), (TripleBacktick, 3)])
    );
}

#[test]
fn lex_spans_cover_the_buffer() {
    let input = "Hé [lien](ü) `ça`\n\n```\n日本語\n```` end";
    let tokens = Lexer::new(input).collect();
    let mut rebuilt = String::new();
    let mut at = 0;
    for token in &tokens {
        assert_eq!(token.span.0, at);
        assert!(token.span.0 < token.span.1);
        rebuilt.push_str(&input[token.span.0..token.span.1]);
        at = token.span.1;
    }
    assert_eq!(at, input.len());
    assert_eq!(rebuilt, input);
}

#[test]
fn lex_multibyte_text_is_one_token() {
    let input = "日本語`é`";
    assert_eq!(
        Lexer::new(input).collect(),
        toks(&[(Text, 9), (Backtick, 1), (Text, 2), (Backtick, 1)])
    );
}

#[test]
fn lex_next_hands_out_tokens_in_order() {
    let mut lexer = Lexer::new("a[");
    assert_eq!(
        lexer.next(),
        Some(Token {
            kind: Text,
            span: (0, 1)
        })
    );
    assert_eq!(
        lexer.next(),
        Some(Token {
            kind: LBracket,
            span: (1, 2)
        })
    );
    assert_eq!(lexer.next(), None);
    assert_eq!(lexer.next(), None);
}

#[test]
fn peekable_peek_leaves_the_token_in_place() {
    let mut tokens = Lexer::new("a\n").peekable();
    let first = Token {
        kind: Text,
        span: (0, 1),
    };
    assert_eq!(tokens.peek(), Some(first));
    assert_eq!(tokens.peek(), Some(first));
    assert_eq!(tokens.next(), Some(first));
    assert_eq!(
        tokens.next(),
        Some(Token {
            kind: Newline,
            span: (1, 2)
        })
    );
    assert_eq!(tokens.peek(), None);
    assert_eq!(tokens.next(), None);
    assert_eq!(tokens.next(), None);
}
