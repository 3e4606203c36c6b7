use just_text::parser::{parse, Note, Paragraph, TextElement};

fn html_of(input: &str) -> String {
    match parse(input) {
        Ok(note) => note.resolve(input),
        Err(error) => panic!("{}", error.to_string()),
    }
}

#[test]
fn resolve_text_then_mono() {
    assert_eq!(
        html_of("Hello `world`"),
        "<p>Hello  <span class=\"mono\">world</span> </p>"
    );
}

#[test]
fn resolve_link() {
    assert_eq!(
        html_of("[Home](index.html)"),
        "<p><a href=\"index.html\">Home</a> </p>"
    );
}

#[test]
fn resolve_two_paragraphs() {
    assert_eq!(html_of("A\n\nB"), "<p>A </p><p>B </p>");
}

#[test]
fn resolve_fenced_code_is_trimmed() {
    assert_eq!(html_of("```code\nline```"), "<p><pre>code\nline</pre> </p>");
    assert_eq!(
        html_of("```\n  code\nline \n```"),
        "<p><pre>code\nline</pre> </p>"
    );
}

#[test]
fn resolve_mono_is_trimmed() {
    assert_eq!(
        html_of("` \t x y\u{a0}\n`"),
        "<p><span class=\"mono\">x y</span> </p>"
    );
    assert_eq!(html_of("` `"), "<p><span class=\"mono\"></span> </p>");
    assert_eq!(html_of("`\u{3000}é\u{2003}`"), "<p><span class=\"mono\">é</span> </p>");
}

#[test]
fn resolve_empty_note_is_empty() {
    assert_eq!(html_of(""), "");
    assert_eq!(Note { paragraphs: vec![] }.resolve("anything"), "");
}

#[test]
fn resolve_plain_prose_is_verbatim() {
    assert_eq!(html_of("Just some prose."), "<p>Just some prose. </p>");
    assert_eq!(html_of("Prosa à la española"), "<p>Prosa à la española </p>");
}

#[test]
fn resolve_escapes_nothing() {
    assert_eq!(
        html_of("a < b & c > d [x<y](u?a=1&b=2)"),
        "<p>a < b & c > d  <a href=\"u?a=1&b=2\">x<y</a> </p>"
    );
}

#[test]
fn resolve_text_is_not_trimmed() {
    assert_eq!(html_of("  a  "), "<p>  a   </p>");
}

#[test]
fn resolve_empty_paragraph() {
    assert_eq!(html_of("\n\n"), "<p></p>");
    assert_eq!(html_of("A\n\n\n\nB"), "<p>A </p><p></p><p>B </p>");
}

#[test]
fn resolve_twice_gives_the_same_string() {
    let input = "Some `code` and [a link](there)\n\n```\nblock\n```";
    let note = parse(input).unwrap();
    assert_eq!(note.resolve(input), note.resolve(input));
}

#[test]
fn resolve_by_hand_built_tree() {
    let content = "héllo wörld";
    let note = Note {
        paragraphs: vec![
            Paragraph {
                parts: vec![TextElement::Text((0, 6)), TextElement::Mono((6, 13))],
            },
            Paragraph {
                parts: vec![TextElement::Link {
                    title: (0, 6),
                    href: (7, 13),
                }],
            },
        ],
    };
    assert_eq!(
        note.resolve(content),
        "<p>héllo <span class=\"mono\">wörld</span> </p><p><a href=\"wörld\">héllo</a> </p>"
    );
    assert_eq!(
        note.paragraphs[0].resolve(content),
        "héllo <span class=\"mono\">wörld</span> "
    );
    assert_eq!(TextElement::BlockMono((6, 13)).resolve(content), "<pre>wörld</pre>");
}
