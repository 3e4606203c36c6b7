use just_text::boundaries::slice;
use just_text::text::{find, replace};

#[test]
fn find_gives_the_first_offset() {
    assert_eq!(find("notes/a/b", b'/'), Some(5));
    assert_eq!(find("/", b'/'), Some(0));
    assert_eq!(find("ñandú.txt", b'.'), Some(7));
    assert_eq!(find("plain", b'/'), None);
    assert_eq!(find("", b'/'), None);
}

#[test]
fn find_agrees_with_std() {
    for sample in ["a b", "日本 語", " x", "x ", "none", "é é é"] {
        assert_eq!(find(sample, b' '), sample.find(" "), "{:?}", sample);
    }
}

#[test]
fn replace_puts_the_text_in_each_place() {
    assert_eq!(replace("a_b_c", b'_', " "), "a b c");
    assert_eq!(replace("__", b'_', "--"), "----");
    assert_eq!(replace("_a_", b'_', ""), "a");
    assert_eq!(replace("plain", b'_', " "), "plain");
    assert_eq!(replace("", b'_', " "), "");
    assert_eq!(replace("ñ_ü_", b'_', "é"), "ñéüé");
    assert_eq!(replace("say \"hi\"", b'"', "&quot;"), "say &quot;hi&quot;");
}

#[test]
fn replace_agrees_with_std() {
    for sample in ["a_b", "_", "日_本_語", "no", "x__y", "_lead", "trail_"] {
        assert_eq!(replace(sample, b'_', "_ _"), sample.replace("_", "_ _"), "{:?}", sample);
    }
}

#[test]
fn slice_cuts_between_characters() {
    assert_eq!(slice("héllo", (0, 3)), "hé");
    assert_eq!(slice("héllo", (1, 3)), "é");
    assert_eq!(slice("héllo", (3, 3)), "");
    assert_eq!(slice("héllo", (0, 6)), "héllo");
    assert_eq!(slice("", (0, 0)), "");
}
