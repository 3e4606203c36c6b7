use just_text::error::JustTextError;
use just_text::meta::{Metadatum, Timestamp};
use just_text::note::Note;
use just_text::read::{lines, parse_metadata};
use just_text::render::compile;
use just_text::site::{
    generate_index, links_of, metadata_of, metadata_text, reconcile_all, sort_by_created, Link,
};

fn stamp(secs: i64, nanos: u32) -> Timestamp {
    Timestamp::new(secs, nanos).unwrap()
}

fn note(filename: &str, content: &str, secs: i64) -> Note {
    Note::first_seen(filename.to_string(), content.to_string(), stamp(secs, 0))
}

fn metadatum(filename: &str, secs: i64) -> Metadatum {
    Metadatum {
        filename: filename.to_string(),
        created: stamp(secs, 0),
    }
}

#[test]
fn compile_gives_html_or_the_first_failure() {
    assert_eq!(
        compile("Hello `world`"),
        Ok("<p>Hello  <span class=\"mono\">world</span> </p>".to_string())
    );
    assert_eq!(compile(""), Ok(String::new()));
    assert_eq!(
        compile("`oops"),
        Err(JustTextError::new("Unterminated inline mono"))
    );
    assert_eq!(
        compile("fine\n\n[broken"),
        Err(JustTextError::new("Incomplete link"))
    );
}

#[test]
fn timestamp_holds_only_instants() {
    let epoch = stamp(0, 0);
    assert_eq!(epoch.secs(), 0);
    assert_eq!(epoch.nanos(), 0);
    assert_eq!(stamp(1355314332, 5).nanos(), 5);
    assert_eq!(stamp(-1, 999_999_999).secs(), -1);
    assert_eq!(Timestamp::new(i64::MAX, 0), None);
    assert_eq!(Timestamp::new(i64::MIN, 0), None);
    assert_eq!(Timestamp::new(0, 2_000_000_000), None);
}

#[test]
fn timestamp_is_parsed_from_rfc3339() {
    assert_eq!(
        Timestamp::parse("2012-12-12T12:12:12Z"),
        Ok(stamp(1355314332, 0))
    );
    assert_eq!(
        Timestamp::parse("2012-12-12 12:12:12.5+01:00"),
        Ok(stamp(1355310732, 500_000_000))
    );
    assert_eq!(
        Timestamp::parse("yesterday"),
        Err(JustTextError::new("input contains invalid characters"))
    );
    assert_eq!(
        Timestamp::parse(""),
        Err(JustTextError::new("premature end of input"))
    );
}

#[test]
fn timestamp_is_written_as_rfc3339() {
    assert_eq!(stamp(0, 0).to_rfc3339(), "1970-01-01T00:00:00+00:00");
    assert_eq!(
        stamp(1355314332, 500_000_000).to_rfc3339(),
        "2012-12-12T12:12:12.500+00:00"
    );
    let written = stamp(1355314332, 123_456_789).to_rfc3339();
    assert_eq!(Timestamp::parse(&written), Ok(stamp(1355314332, 123_456_789)));
}

#[test]
fn timestamp_is_written_under_a_pattern() {
    assert_eq!(
        stamp(1355314332, 0).format("%b %e %Y"),
        Some("Dec 12 2012".to_string())
    );
    assert_eq!(
        stamp(0, 0).format("%b %e %Y"),
        Some("Jan  1 1970".to_string())
    );
    assert_eq!(stamp(0, 0).format("%Y/%m/%d"), Some("1970/01/01".to_string()));
    assert_eq!(stamp(0, 0).format("%"), None);
}

#[test]
fn timestamp_order_is_by_seconds_then_nanoseconds() {
    assert!(stamp(1, 0).not_later_than(&stamp(2, 0)));
    assert!(!stamp(2, 0).not_later_than(&stamp(1, 999_999_999)));
    assert!(stamp(1, 5).not_later_than(&stamp(1, 5)));
    assert!(stamp(1, 5).not_later_than(&stamp(1, 6)));
    assert!(!stamp(1, 6).not_later_than(&stamp(1, 5)));
    assert!(stamp(-5, 0).not_later_than(&stamp(0, 0)));
}

#[test]
fn metadatum_is_read_from_a_line() {
    assert_eq!(
        Metadatum::from_str("notes/a.txt 2012-12-12T12:12:12Z"),
        Ok(metadatum("notes/a.txt", 1355314332))
    );
    assert_eq!(
        Metadatum::from_str(" 2012-12-12T12:12:12Z"),
        Ok(metadatum("", 1355314332))
    );
    assert_eq!(
        Metadatum::from_str("ñandú.txt 1970-01-01T00:00:00+00:00"),
        Ok(metadatum("ñandú.txt", 0))
    );
}

#[test]
fn metadatum_needs_exactly_one_space() {
    let malformed = Err(JustTextError::new("malformed metadatum"));
    assert_eq!(Metadatum::from_str("notes/a.txt"), malformed);
    assert_eq!(Metadatum::from_str(""), malformed);
    assert_eq!(
        Metadatum::from_str("notes/a.txt 2012-12-12 12:12:12Z"),
        malformed
    );
    assert_eq!(Metadatum::from_str("a  2012-12-12T12:12:12Z"), malformed);
}

#[test]
fn metadatum_needs_an_instant() {
    assert_eq!(
        Metadatum::from_str("notes/a.txt today"),
        Err(JustTextError::new("input contains invalid characters"))
    );
    assert_eq!(
        Metadatum::from_str("notes/a.txt "),
        Err(JustTextError::new("premature end of input"))
    );
}

#[test]
fn metadatum_is_written_as_a_line() {
    assert_eq!(
        metadatum("notes/a.txt", 1355314332).to_string(),
        "notes/a.txt 2012-12-12T12:12:12+00:00"
    );
    let line = metadatum("notes/b c.txt", 7).to_string();
    assert_eq!(line, "notes/b c.txt 1970-01-01T00:00:07+00:00");
}

#[test]
fn metadata_text_joins_the_lines() {
    assert_eq!(metadata_text(&vec![]), "");
    assert_eq!(
        metadata_text(&vec![metadatum("a", 0)]),
        "a 1970-01-01T00:00:00+00:00"
    );
    assert_eq!(
        metadata_text(&vec![metadatum("a", 0), metadatum("b", 1), metadatum("c", 2)]),
        "a 1970-01-01T00:00:00+00:00\nb 1970-01-01T00:00:01+00:00\nc 1970-01-01T00:00:02+00:00"
    );
}

#[test]
fn metadata_text_is_read_back() {
    let metadata = vec![metadatum("notes/a.txt", 5), metadatum("notes/b.txt", 3)];
    assert_eq!(parse_metadata(&metadata_text(&metadata)), Ok(metadata));
}

#[test]
fn lines_are_split_as_std_splits_them() {
    let samples = [
        "", "a", "a\n", "a\nb", "a\r\nb\r\n", "\n", "\n\n", "a\r", "a\r\n", "\r\n", "\ra\n",
        "a\n\nb\n", "é\r\nü", "a\r\r\nb", "\n\r", "x\ny\nz",
    ];
    for sample in samples {
        let expected: Vec<&str> = sample.lines().collect();
        assert_eq!(lines(sample), expected, "{:?}", sample);
    }
}

#[test]
fn lines_drop_their_endings() {
    assert_eq!(lines("a\nb\r\nc"), vec!["a", "b", "c"]);
    assert_eq!(lines(""), Vec::<&str>::new());
    assert_eq!(lines("\n"), vec![""]);
    assert_eq!(lines("a\r"), vec!["a\r"]);
}

#[test]
fn metadata_are_read_line_by_line() {
    assert_eq!(parse_metadata(""), Ok(vec![]));
    assert_eq!(
        parse_metadata("a 1970-01-01T00:00:00Z\r\nb 1970-01-01T00:00:01Z\n"),
        Ok(vec![metadatum("a", 0), metadatum("b", 1)])
    );
    assert_eq!(
        parse_metadata("a 1970-01-01T00:00:00Z\n\nb 1970-01-01T00:00:01Z"),
        Err(JustTextError::new("malformed metadatum"))
    );
    assert_eq!(
        parse_metadata("a 1970-01-01T00:00:00Z\nb never\nc"),
        Err(JustTextError::new("input contains invalid characters"))
    );
}

#[test]
fn note_core_stands_between_slash_and_dot() {
    assert_eq!(note("notes/my_note.txt", "", 0).get_path_core(), "my_note");
    assert_eq!(note("my_note", "", 0).get_path_core(), "my_note");
    assert_eq!(note("notes/a.b.c", "", 0).get_path_core(), "a");
    assert_eq!(note("notes/sub/a.txt", "", 0).get_path_core(), "sub/a");
    assert_eq!(note("notes/.hidden", "", 0).get_path_core(), "");
    assert_eq!(note("notes/añо.txt", "", 0).get_path_core(), "añо");
    assert_eq!(note("", "", 0).get_path_core(), "");
}

#[test]
fn note_without_a_core_is_told() {
    assert!(note("notes/a.txt", "", 0).has_path_core());
    assert!(note("plain", "", 0).has_path_core());
    assert!(!note("a.b/c", "", 0).has_path_core());
    assert!(!note("./notes/a.txt", "", 0).has_path_core());
    assert!(note("/.", "", 0).has_path_core());
}

#[test]
fn note_title_has_spaces_for_underscores() {
    assert_eq!(
        note("notes/my_first__note.txt", "", 0).generate_title(),
        "my first  note"
    );
    assert_eq!(note("notes/plain.txt", "", 0).generate_title(), "plain");
    assert_eq!(note("notes/_.txt", "", 0).generate_title(), " ");
}

#[test]
fn note_link_leads_to_its_page() {
    assert_eq!(
        note("notes/my_note.txt", "", 0).generate_link(),
        Link {
            href: "./my_note.html".to_string(),
            title: "my note".to_string()
        }
    );
    assert_eq!(
        note("notes/say_\"hi\".txt", "", 0).generate_link(),
        Link {
            href: "./say_&quot;hi&quot;.html".to_string(),
            title: "say \"hi\"".to_string()
        }
    );
    assert_eq!(
        note("notes/my_note.txt", "", 0).get_html_path(),
        "my_note.html"
    );
}

#[test]
fn note_takes_the_instant_of_its_first_metadatum() {
    let metadata = vec![
        metadatum("notes/b.txt", 1),
        metadatum("notes/a.txt", 2),
        metadatum("notes/a.txt", 3),
    ];
    let mut known = note("notes/a.txt", "text", 9);
    known.reconcile(&metadata);
    assert_eq!(known.created, stamp(2, 0));
    assert_eq!(known.filename, "notes/a.txt");
    assert_eq!(known.content, "text");
    let mut unknown = note("notes/c.txt", "", 9);
    unknown.reconcile(&metadata);
    assert_eq!(unknown.created, stamp(9, 0));
    unknown.reconcile(&vec![]);
    assert_eq!(unknown.created, stamp(9, 0));
}

#[test]
fn note_is_first_seen_now() {
    let before = Timestamp::now();
    let fresh = Note::new("notes/a.txt".to_string(), "text".to_string());
    assert_eq!(fresh.filename, "notes/a.txt");
    assert_eq!(fresh.content, "text");
    assert!(fresh.created.secs() > 1_000_000_000);
    assert!(fresh.created.secs() >= before.secs() - 1);
    assert_eq!(
        Timestamp::new(fresh.created.secs(), fresh.created.nanos()),
        Some(fresh.created)
    );
}

#[test]
fn note_gives_its_metadatum() {
    assert_eq!(
        note("notes/a.txt", "text", 4).to_metadatum(),
        metadatum("notes/a.txt", 4)
    );
}

#[test]
fn note_page_fills_the_template() {
    let page = note("notes/my_note.txt", "Hi `there`", 1355314332)
        .render("{{title}}|{{date}}|{{{content}}}");
    assert_eq!(
        page,
        Ok("my note|Dec 12 2012|<p>Hi  <span class=\"mono\">there</span> </p>".to_string())
    );
    let escaped = note("notes/a.txt", "a < b", 0).render("{{content}}");
    assert_eq!(escaped, Ok("&lt;p&gt;a &lt; b &lt;/p&gt;".to_string()));
}

#[test]
fn note_page_fails_with_the_text() {
    assert_eq!(
        note("notes/a.txt", "`oops", 0).render("{{title}}"),
        Err(JustTextError::new("Unterminated inline mono"))
    );
}

#[test]
fn note_page_fails_with_the_template() {
    assert!(note("notes/a.txt", "fine", 0).render("{{#if}}").is_err());
    assert!(note("notes/a.txt", "fine", 0).render("{{title").is_err());
}

#[test]
fn index_lists_the_links() {
    let links = vec![
        Link {
            href: "./a.html".to_string(),
            title: "a".to_string(),
        },
        Link {
            href: "./b_c.html".to_string(),
            title: "b c".to_string(),
        },
    ];
    assert_eq!(
        generate_index(
            "<ul>{{#each links}}<li><a href=\"{{{href}}}\">{{title}}</a></li>{{/each}}</ul>",
            &links
        ),
        Ok("<ul><li><a href=\"./a.html\">a</a></li><li><a href=\"./b_c.html\">b c</a></li></ul>"
            .to_string())
    );
    assert_eq!(
        generate_index("{{#each links}}x{{/each}}", &vec![]),
        Ok(String::new())
    );
    assert!(generate_index("{{#each links}}", &links).is_err());
}

#[test]
fn notes_are_sorted_by_first_sight() {
    let mut notes = vec![
        note("c", "", 3),
        note("a", "", 1),
        note("d", "", 4),
        note("b", "", 2),
    ];
    sort_by_created(&mut notes);
    let names: Vec<&str> = notes.iter().map(|n| n.filename.as_str()).collect();
    assert_eq!(names, vec!["a", "b", "c", "d"]);
}

#[test]
fn notes_of_one_instant_keep_their_order() {
    let mut notes = vec![
        note("late", "", 5),
        note("first", "", 1),
        note("second", "", 1),
        note("early", "", 0),
        note("third", "", 1),
    ];
    sort_by_created(&mut notes);
    let names: Vec<&str> = notes.iter().map(|n| n.filename.as_str()).collect();
    assert_eq!(names, vec!["early", "first", "second", "third", "late"]);
    let mut sorted_by_std = vec![(5, "late"), (1, "first"), (1, "second"), (0, "early"), (1, "third")];
    sorted_by_std.sort_by(|a, b| a.0.cmp(&b.0));
    let expected: Vec<&str> = sorted_by_std.iter().map(|n| n.1).collect();
    assert_eq!(names, expected);
    let mut none: Vec<Note> = vec![];
    sort_by_created(&mut none);
    assert!(none.is_empty());
}

#[test]
fn notes_are_sorted_by_nanoseconds_too() {
    let mut notes = vec![
        Note::first_seen("b".to_string(), String::new(), stamp(1, 7)),
        Note::first_seen("a".to_string(), String::new(), stamp(1, 6)),
    ];
    sort_by_created(&mut notes);
    assert_eq!(notes[0].filename, "a");
    assert_eq!(notes[1].filename, "b");
}

#[test]
fn notes_are_reconciled_each() {
    let mut notes = vec![note("a", "one", 10), note("b", "two", 11), note("c", "", 12)];
    reconcile_all(&mut notes, &vec![metadatum("c", 1), metadatum("a", 2)]);
    assert_eq!(notes[0].created, stamp(2, 0));
    assert_eq!(notes[1].created, stamp(11, 0));
    assert_eq!(notes[2].created, stamp(1, 0));
    assert_eq!(notes[1].content, "two");
}

#[test]
fn notes_give_metadata_and_links_in_order() {
    let notes = vec![note("notes/b_b.txt", "", 2), note("notes/a.txt", "", 1)];
    assert_eq!(
        metadata_of(&notes),
        vec![metadatum("notes/b_b.txt", 2), metadatum("notes/a.txt", 1)]
    );
    assert_eq!(
        links_of(&notes),
        vec![
            Link {
                href: "./b_b.html".to_string(),
                title: "b b".to_string()
            },
            Link {
                href: "./a.html".to_string(),
                title: "a".to_string()
            }
        ]
    );
}

#[test]
fn error_owns_a_message() {
    let error = JustTextError::from_string(format!("{} {}", "line", 3));
    assert_eq!(error.to_string(), "line 3");
    assert_eq!(error, JustTextError::new("line 3"));
}
