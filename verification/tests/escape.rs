use marxml::escape::decode_entities;
use marxml::{escape_attr, escape_text, is_valid_name};
use std::borrow::Cow;

#[test]
fn text_escapes_lt_gt_amp() {
    assert_eq!(escape_text("a < b & c > d"), "a &lt; b &amp; c &gt; d");
}

#[test]
fn text_leaves_quotes_alone() {
    assert_eq!(escape_text("he said \"hi\""), "he said \"hi\"");
}

#[test]
fn attr_escapes_quotes_too() {
    assert_eq!(escape_attr("\" onclick=evil"), "&quot; onclick=evil");
}

#[test]
fn passthrough_for_safe_input() {
    // Clean inputs borrow rather than allocate.
    let text = escape_text("hello world");
    assert!(matches!(text, Cow::Borrowed(_)));
    assert_eq!(text, "hello world");
    let attr = escape_attr("hello world");
    assert!(matches!(attr, Cow::Borrowed(_)));
    assert_eq!(attr, "hello world");
}

#[test]
fn handles_multibyte_utf8() {
    assert_eq!(escape_text("café — 日本"), "café — 日本");
    assert_eq!(escape_attr("café — 日本"), "café — 日本");
}

#[test]
fn names_predicates() {
    assert!(is_valid_name("task"));
    assert!(is_valid_name("_data"));
    assert!(is_valid_name("a-b_c.d"));
    assert!(!is_valid_name(""));
    assert!(!is_valid_name("1abc"));
    assert!(!is_valid_name("a b"));
    assert!(!is_valid_name("a\"b"));
    assert!(!is_valid_name("a=b"));
}

#[test]
fn escaped_text_and_attrs_hold_no_markup_delimiters() {
    let text = escape_text("<a href=\"x\">&</a>");
    assert!(!text.contains('<') && !text.contains('>'));
    let attr = escape_attr("<\"quoted\">");
    assert!(!attr.contains('<') && !attr.contains('>') && !attr.contains('"'));
    assert_eq!(attr, "&lt;&quot;quoted&quot;&gt;");
}

#[test]
fn escape_drops_illegal_control_characters() {
    assert_eq!(escape_text("a\u{1}b\u{7f}c\td"), "abc\td");
}

#[test]
fn decode_entities_reverses_escaping_and_numeric_references() {
    assert_eq!(decode_entities("a &lt; b &amp; c &gt; d"), "a < b & c > d");
    assert_eq!(decode_entities("&#65;&#x42;&quot;&apos;"), "AB\"'");
    assert_eq!(decode_entities("&bogus; &#xD800; &"), "&bogus; &#xD800; &");
}

#[test]
fn decode_entities_borrows_text_without_ampersand() {
    assert!(matches!(decode_entities("plain"), Cow::Borrowed("plain")));
    assert!(matches!(decode_entities("Tom & Jerry"), Cow::Owned(_)));
    assert_eq!(decode_entities("Tom & Jerry"), "Tom & Jerry");
    assert_eq!(decode_entities("&#0;"), "&#0;");
}
