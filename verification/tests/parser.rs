use just_text::error::JustTextError;
use just_text::lexer::Lexer;
use just_text::parser::{
    parse, parse_block_mono, parse_link, parse_mono, parse_note, parse_paragraph, parse_text,
    parse_text_element, Note, Paragraph, TextElement,
};

#[test]
fn parse_link1() {
    let input = "[a link](here)";
    //           01234567890123

    assert_eq!(
        parse_link(&mut Lexer::new(input).peekable()),
        Ok(TextElement::Link {
            title: (1, 7),
            href: (9, 13)
        })
    );
}

#[test]
fn parse_mono1() {
    let input = "`Some monospace text`";
    //           012345678901234567890

    assert_eq!(
        parse_mono(&mut Lexer::new(input).peekable()),
        Ok(TextElement::Mono((1, 20)))
    );
}

#[test]
fn parse_block_mono1() {
    let input = "```This is some block mono```";
    //           01234567890123456789012345678

    assert_eq!(
        parse_block_mono(&mut Lexer::new(input).peekable()),
        Ok(TextElement::BlockMono((3, 26)))
    );
}

#[test]
fn parse_paragraph1() {
    let input = "This is a `paragraph` with [a link](here)";
    //           01234567890123456789012345678901234567890

    assert_eq!(
        parse_paragraph(&mut Lexer::new(input).peekable()),
        Ok(Paragraph {
            parts: vec![
                TextElement::Text((0, 10)),
                TextElement::Mono((11, 20)),
                TextElement::Text((21, 27)),
                TextElement::Link {
                    title: (28, 34),
                    href: (36, 40)
                }
            ]
        })
    );
}

#[test]
fn parse1() {
    let input = "This is a note

with a couple of lines";

    assert_eq!(
        parse(input),
        Ok(Note {
            paragraphs: vec![
                Paragraph {
                    parts: vec![TextElement::Text((0, 14))]
                },
                Paragraph {
                    parts: vec![TextElement::Text((16, 38))]
                }
            ]
        })
    );
}

fn paragraphs_of(input: &str) -> Vec<Vec<TextElement>> {
    match parse(input) {
        Ok(note) => note.paragraphs.into_iter().map(|p| p.parts).collect(),
        Err(error) => panic!("{}", error.to_string()),
    }
}

fn failure_of(input: &str) -> String {
    match parse(input) {
        Ok(note) => panic!("{:?}", note),
        Err(error) => error.to_string(),
    }
}

#[test]
fn parse_empty_input_has_no_paragraphs() {
    assert_eq!(parse(""), Ok(Note { paragraphs: vec![] }));
}

#[test]
fn parse_text_then_mono() {
    assert_eq!(
        paragraphs_of("Hello `world`"),
        vec![vec![TextElement::Text((0, 6)), TextElement::Mono((7, 12))]]
    );
}

#[test]
fn parse_link_alone() {
    assert_eq!(
        paragraphs_of("[Home](index.html)"),
        vec![vec![TextElement::Link {
            title: (1, 5),
            href: (7, 17)
        }]]
    );
}

#[test]
fn parse_blank_line_splits_paragraphs() {
    assert_eq!(
        paragraphs_of("A\n\nB"),
        vec![vec![TextElement::Text((0, 1))], vec![TextElement::Text((3, 4))]]
    );
}

#[test]
fn parse_single_newline_is_dropped() {
    assert_eq!(
        paragraphs_of("A\nB"),
        vec![vec![TextElement::Text((0, 1)), TextElement::Text((2, 3))]]
    );
    assert_eq!(paragraphs_of("A\n"), vec![vec![TextElement::Text((0, 1))]]);
}

#[test]
fn parse_third_newline_is_dropped() {
    assert_eq!(
        paragraphs_of("A\n\n\nB"),
        vec![vec![TextElement::Text((0, 1))], vec![TextElement::Text((4, 5))]]
    );
}

#[test]
fn parse_newline_pairs_without_content_give_empty_paragraphs() {
    assert_eq!(
        paragraphs_of("A\n\n\n\nB"),
        vec![
            vec![TextElement::Text((0, 1))],
            vec![],
            vec![TextElement::Text((5, 6))]
        ]
    );
    assert_eq!(
        paragraphs_of("\n\nA"),
        vec![vec![], vec![TextElement::Text((2, 3))]]
    );
    assert_eq!(
        paragraphs_of("A\n\n\n"),
        vec![vec![TextElement::Text((0, 1))], vec![]]
    );
}

#[test]
fn parse_fenced_code_over_lines() {
    assert_eq!(
        paragraphs_of("```code\nline```"),
        vec![vec![TextElement::BlockMono((3, 12))]]
    );
}

#[test]
fn parse_mono_may_hold_newlines_and_brackets() {
    assert_eq!(
        paragraphs_of("`a\n\n[b](`"),
        vec![vec![TextElement::Mono((1, 8))]]
    );
}

#[test]
fn parse_empty_mono_has_an_empty_span() {
    assert_eq!(paragraphs_of("``` ```"), vec![vec![TextElement::BlockMono((3, 4))]]);
    assert_eq!(
        parse_mono(&mut Lexer::new("`x`y").peekable()),
        Ok(TextElement::Mono((1, 2)))
    );
}

#[test]
fn parse_text_runs_over_closing_delimiters() {
    let mut tokens = Lexer::new("a)b](c `d`").peekable();
    assert_eq!(parse_text(&mut tokens), TextElement::Text((0, 7)));
    assert_eq!(tokens.peek().map(|t| t.span), Some((7, 8)));
}

#[test]
fn parse_two_backticks_are_text() {
    assert_eq!(
        paragraphs_of("a``b"),
        vec![vec![TextElement::Text((0, 4))]]
    );
}

#[test]
fn parse_stray_closer_is_malformed() {
    assert_eq!(failure_of(")"), "Malformed note input");
    assert_eq!(failure_of("]"), "Malformed note input");
    assert_eq!(failure_of("(a"), "Malformed note input");
    assert_eq!(failure_of("A\n\n)"), "Malformed note input");
    assert_eq!(
        parse_text_element(&mut Lexer::new("\n").peekable()),
        Err(JustTextError::new("Malformed note input"))
    );
}

#[test]
fn parse_unterminated_mono_fails() {
    assert_eq!(failure_of("`oops"), "Unterminated inline mono");
    assert_eq!(failure_of("text `"), "Unterminated inline mono");
    assert_eq!(
        parse_mono(&mut Lexer::new("`a```b").peekable()),
        Err(JustTextError::new("Unterminated inline mono"))
    );
}

#[test]
fn parse_unterminated_block_mono_fails() {
    assert_eq!(failure_of("```oops"), "Unterminated block mono");
    assert_eq!(failure_of("```a`b`"), "Unterminated block mono");
}

#[test]
fn parse_incomplete_link_fails() {
    assert_eq!(failure_of("["), "Incomplete link");
    assert_eq!(failure_of("[a"), "Incomplete link");
    assert_eq!(failure_of("[a]"), "Incomplete link");
    assert_eq!(failure_of("[a]("), "Incomplete link");
    assert_eq!(failure_of("[a](b"), "Incomplete link");
    assert_eq!(
        parse_link(&mut Lexer::new("").peekable()),
        Err(JustTextError::new("Incomplete link"))
    );
}

#[test]
fn parse_link_of_wrong_shape_fails() {
    assert_eq!(failure_of("[](b)"), "Invalid link: expected text after \"[\"");
    assert_eq!(failure_of("[[a](b)"), "Invalid link: expected text after \"[\"");
    assert_eq!(failure_of("[a(b)"), "Invalid link: expected \"]\" after title");
    assert_eq!(failure_of("[a] (b)"), "Invalid link: expected \"(\" after \"]\"");
    assert_eq!(failure_of("[a]()"), "Invalid link: expected text after \"(\"");
    assert_eq!(failure_of("[a](b]"), "Invalid link: expected \")\" after href");
    assert_eq!(failure_of("[a](b\n)"), "Invalid link: expected \")\" after href");
}

#[test]
fn parse_note_stops_at_the_first_failure() {
    let mut tokens = Lexer::new("fine\n\n[broken\n\nnever seen").peekable();
    assert_eq!(
        parse_note(&mut tokens),
        Err(JustTextError::new("Invalid link: expected \"]\" after title"))
    );
}

#[test]
fn parse_paragraph_leaves_the_next_paragraph() {
    let mut tokens = Lexer::new("A\n\nB").peekable();
    assert_eq!(
        parse_paragraph(&mut tokens),
        Ok(Paragraph {
            parts: vec![TextElement::Text((0, 1))]
        })
    );
    assert_eq!(tokens.peek().map(|t| t.span), Some((3, 4)));
    assert_eq!(
        parse_paragraph(&mut tokens),
        Ok(Paragraph {
            parts: vec![TextElement::Text((3, 4))]
        })
    );
    assert_eq!(tokens.peek(), None);
}

#[test]
fn error_keeps_its_message() {
    let error = JustTextError::new("malformed metadatum");
    assert_eq!(error.to_string(), "malformed metadatum");
    assert_eq!(error, JustTextError::new("malformed metadatum"));
    assert_ne!(error, JustTextError::new("Incomplete link"));
}
