use cargo_depgate::arrays::array_entry_range;
use cargo_depgate::files::{relative_to, show};
use cargo_depgate::names::{distinct_of, insert, is_before};
use cargo_depgate::order::put;
use cargo_depgate::report::github::{escape, escape_property};
use cargo_depgate::source::{line_col_to_offset, place};
use cargo_depgate::text::{
    join, push_decimal, split_at_first, starts_with, strip_prefix, trim, trim_end,
};

fn owned(values: &[&str]) -> Vec<String> {
    values.iter().map(|value| (*value).to_owned()).collect()
}

#[test]
fn a_place_leads_back_to_its_offset() {
    let text = "alpha\n\u{3b2}eta \u{1f980}\n\nx";
    for (offset, _) in text.char_indices() {
        let (line, col) = place(text, offset);
        assert_eq!(line_col_to_offset(text, line, col), Some(offset), "{line}:{col}");
    }
    assert_eq!(place(text, 0), (1, 1));
    assert_eq!(place(text, 8), (2, 2));
    assert_eq!(place(text, text.len()), (4, 2));
}

#[test]
fn paths_are_shown_below_their_root() {
    assert_eq!(relative_to("/ws/crates/app/Cargo.toml", "/ws").as_deref(), Some("crates/app/Cargo.toml"));
    assert_eq!(relative_to("/ws-other/Cargo.toml", "/ws"), None);
    assert_eq!(relative_to("ws/Cargo.toml", "/ws"), None);
    assert_eq!(relative_to("/ws//a/./b", "/ws/").as_deref(), Some("a/./b"));
    assert_eq!(show("/ws/depgate.toml", "/ws"), "depgate.toml");
    assert_eq!(show("/elsewhere/depgate.toml", "/ws"), "/elsewhere/depgate.toml");
}

#[test]
fn array_entries_are_found_past_comments_and_strings() {
    let text = "x = [ \"a,]\", # one, two\n 'b' , c ]";
    let start = text.find('[').expect("an array");
    let entry = |index: usize| {
        let (from, to) = array_entry_range(text.as_bytes(), start, text.len(), index);
        &text[from..to]
    };
    assert_eq!(entry(0), "\"a,]\"");
    assert_eq!(entry(1), "'b'");
    assert_eq!(entry(2), "c");
    assert_eq!(entry(3), &text[start..]);
}

#[test]
fn names_come_in_byte_order_and_once() {
    assert_eq!(distinct_of(&owned(&["b", "a", "b", "B", "a-b", "a_b"])), ["B", "a", "a-b", "a_b", "b"]);
    let mut names = owned(&["a", "c"]);
    insert(&mut names, "b");
    insert(&mut names, "a");
    assert_eq!(names, ["a", "b", "c"]);
    assert!(is_before("a", "ab") && !is_before("ab", "a") && !is_before("a", "a"));
}

#[test]
fn items_are_put_behind_those_of_the_same_offset() {
    let mut items: Vec<(usize, char)> = Vec::new();
    for (offset, item) in [(5, 'a'), (1, 'b'), (5, 'c'), (3, 'd')] {
        put(&mut items, offset, item);
    }
    assert_eq!(items, [(1, 'b'), (3, 'd'), (5, 'a'), (5, 'c')]);
}

#[test]
fn texts_are_split_and_trimmed() {
    assert_eq!(split_at_first("a?/b/c", '/'), Some(("a?".to_owned(), "b/c".to_owned())));
    assert_eq!(split_at_first("abc", '/'), None);
    assert_eq!(strip_prefix("dep:serde", "dep:").as_deref(), Some("serde"));
    assert_eq!(strip_prefix("serde", "dep:"), None);
    assert!(starts_with("path+file", "path+") && !starts_with("pat", "path+"));
    assert_eq!(trim_end("/ws///", '/'), "/ws");
    assert_eq!(trim(" \t host \r\n"), "host");
    assert_eq!(join(&owned(&["a", "b", "c"]), ", "), "a, b, c");
    let mut text = String::from("n=");
    push_decimal(&mut text, 0);
    push_decimal(&mut text, 1024);
    assert_eq!(text, "n=01024");
}

#[test]
fn different_texts_are_escaped_differently() {
    let texts = ["a%b", "a%25b", "a\nb", "a%0Ab", "a\rb", "a:b", "a%3Ab", "a,b", "a%2Cb"];
    for (i, left) in texts.iter().enumerate() {
        for right in &texts[i + 1..] {
            assert_ne!(escape(left), escape(right));
            assert_ne!(escape_property(left), escape_property(right));
        }
        assert!(!escape(left).contains(['\n', '\r']));
        assert!(!escape_property(left).contains([':', ',']));
    }
}
