use radium_dice::display::display_rolls;
use radium_dice::util::{chop_str, display_timecode, escape_str, none_on_empty, push_chopped_str};

#[test]
fn rolls_display() {
    assert_eq!(display_rolls(&[]), "");
    assert_eq!(display_rolls(&[vec![4]]), "`4`");
    assert_eq!(display_rolls(&[vec![3, 5]]), "`[3 5]`");
    assert_eq!(display_rolls(&[vec![3, 5], vec![12]]), "`[[3 5] 12]`");
}

#[test]
fn timecodes() {
    assert_eq!(display_timecode(0), "00:00");
    assert_eq!(display_timecode(61_000), "01:01");
    assert_eq!(display_timecode(599_999), "09:59");
    assert_eq!(display_timecode(3_661_000), "01:01:01");
    assert_eq!(display_timecode(360_000_000), "100:00:00");
}

#[test]
fn markdown_is_escaped() {
    assert_eq!(escape_str("a_b*c"), "a\\_b\\*c");
    assert_eq!(escape_str("`x` | ~y~ \\"), "\\`x\\` \\| \\~y\\~ \\\\");
    assert_eq!(escape_str("[link]"), "\u{2045}link\u{2046}");
    assert_eq!(escape_str("plain"), "plain");
}

#[test]
fn chopping() {
    assert_eq!(chop_str("hi", 5), "hi");
    assert_eq!(chop_str("hello world", 5), "hell\u{2026}");
    assert_eq!(chop_str("ab cd", 4), "ab\u{2026}");
    assert_eq!(chop_str("a_bcdef", 4), "a\\_b\u{2026}");
    let mut base = String::from("> ");
    push_chopped_str(&mut base, "abcdef", 3);
    assert_eq!(base, "> ab\u{2026}");
}

#[test]
fn empty_to_none() {
    assert_eq!(none_on_empty(""), None);
    assert_eq!(none_on_empty("x"), Some("x"));
}
