use propaganda::canonical::{canonicalize, compare_article_fulltext};
use propaganda::detect::has_changed;
use propaganda::text::{chars_of, string_of, trim, str_eq};

#[test]
fn canonicalize_is_pure_and_total() {
    let inputs = [
        "",
        "plain text with no markup at all",
        "<div class=\"storywrapper\">Hello world</div>",
        "<div class=\"storywrapper\"> spaced  <b>bold</b> tail </div>",
        "<",
        "<div",
        "<div class=\"storywrapper\">never closed",
        "<>><<",
        "<!-- a comment --><p> x </p>",
    ];
    for input in inputs.iter() {
        let once = canonicalize(input);
        let twice = canonicalize(input);
        assert_eq!(once, twice);
    }
}

#[test]
fn canonicalize_extracts_story_container() {
    let html = "<html><body><div class=\"storywrapper\">Hello world</div></body></html>";
    assert_eq!(canonicalize(html), "Hello world");
}

#[test]
fn canonicalize_trims_and_joins_text_nodes() {
    let html = "<div class=\"storywrapper\">  one  <b> two </b>\n three \n</div>";
    assert_eq!(canonicalize(html), "one\ntwo\nthree");
}

#[test]
fn canonicalize_skips_empty_text_nodes() {
    let html = "<div class=\"storywrapper\"><p>   </p><p> x </p></div>";
    assert_eq!(canonicalize(html), "x");
}

#[test]
fn canonicalize_falls_through_to_paragraphs() {
    let html = "<div id=\"content\"><p>first paragraph</p><p>second</p></div>";
    assert_eq!(canonicalize(html), "first paragraph\nsecond");
}

#[test]
fn canonicalize_falls_back_to_raw_markup() {
    let html = "<span>nothing the chain matches</span>";
    assert_eq!(canonicalize(html), html);
    assert_eq!(canonicalize(""), "");
    assert_eq!(canonicalize("<div"), "<div");
}

#[test]
fn canonicalize_first_match_wins() {
    let html = "<p>paragraph text</p><div class=\"storywrapper\">story text</div>";
    assert_eq!(canonicalize(html), "story text");
}

#[test]
fn canonicalize_handles_nested_same_tag() {
    let html = "<div class=\"storywrapper\">outer<div>inner</div>after</div><div>elsewhere</div>";
    assert_eq!(canonicalize(html), "outer\ninner\nafter");
}

#[test]
fn class_attribute_must_stand_alone() {
    // "xclass=..." is not a class attribute, so the chain falls through to
    // the paragraph selector
    let html = "<div xclass=\"storywrapper\">not it<p>but this</p></div>";
    assert_eq!(canonicalize(html), "but this");
}

#[test]
fn compare_article_fulltext_ignores_markup_differences() {
    let a = "<div class=\"storywrapper\">  Hello world </div>";
    let b = "<body><div class=\"storywrapper\">Hello world</div></body>";
    assert!(compare_article_fulltext(a, b));
    let c = "<div class=\"storywrapper\">Hello worlds</div>";
    assert!(!compare_article_fulltext(a, c));
}

#[test]
fn has_changed_rules() {
    assert!(has_changed(None, "anything"));
    assert!(has_changed(None, ""));
    assert!(!has_changed(Some("same"), "same"));
    assert!(has_changed(Some("old"), "new"));
    assert!(has_changed(Some("x"), "x "));
}

#[test]
fn text_helpers_round_trip() {
    let cs = chars_of("abc def");
    assert_eq!(cs, vec!['a', 'b', 'c', ' ', 'd', 'e', 'f']);
    let s = string_of(&cs);
    assert_eq!(s, "abc def");
    let trimmed = trim(&chars_of("  x y\t\n"));
    assert_eq!(string_of(&trimmed), "x y");
    assert!(str_eq("abc", "abc"));
    assert!(!str_eq("abc", "abd"));
    assert!(!str_eq("abc", "ab"));
}
