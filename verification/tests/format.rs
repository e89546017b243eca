//! Messages with mentions and markup.

use quiz_bot::format::{mentionify, mentionify_with_names, sanitize_display_name};
use quiz_bot::names::NameMap;

#[test]
fn replaces_single_mxid() {
    let c = mentionify("Hello @alice:example.org!");
    let html = c.html.expect("should have HTML body");
    assert!(html.contains(r#"href="https://matrix.to/#/@alice:example.org""#));
    assert!(html.contains(">alice<"));
}

#[test]
fn replaces_multiple_mxids() {
    let c = mentionify("@a:x.org and @b:y.org");
    let html = c.html.expect("should have HTML body");
    assert!(html.contains(">a<"));
    assert!(html.contains(">b<"));
}

#[test]
fn no_mxid_returns_plain() {
    let c = mentionify("no mentions here");
    assert!(c.html.is_none());
}

#[test]
fn escapes_html_outside_mxid() {
    let c = mentionify("x < y & @u:s.org");
    let html = c.html.expect("should have HTML body");
    assert!(html.contains("&lt;"));
    assert!(html.contains("&amp;"));
}

#[test]
fn bold_markers_become_strong() {
    let c = mentionify("Answer: **Paris**");
    let plain = c.plain;
    let html = c.html.expect("should have HTML body");
    assert!(html.contains("<strong>Paris</strong>"), "html={html}");
    assert!(!plain.contains('*'), "plain body={plain}");
    assert!(plain.contains("Paris"));
}

#[test]
fn bold_and_mxid_together() {
    let c = mentionify("**@alice:example.org** got it right");
    let html = c.html.expect("should have HTML body");
    assert!(html.contains("<strong>"), "html={html}");
    assert!(html.contains(r#"href="https://matrix.to/#/@alice:example.org""#));
}

#[test]
fn strikethrough_becomes_del() {
    let c = mentionify("✗ ~~Sports~~");
    let plain = c.plain;
    let html = c.html.expect("should have HTML body");
    assert!(html.contains("<del>Sports</del>"), "html={html}");
    assert!(!plain.contains('~'), "plain should not contain tildes, got: {plain}");
    assert!(plain.contains("Sports"), "plain={plain}");
}

#[test]
fn with_names_uses_display_name() {
    let mut names = NameMap::new();
    names.insert("@alice:example.org".to_owned(), "Alice Smith".to_owned());
    let c = mentionify_with_names("Hello @alice:example.org!", &names);
    let html = c.html.expect("should have HTML body");
    assert!(html.contains(">Alice Smith<"));
    assert!(html.contains(r#"href="https://matrix.to/#/@alice:example.org""#));
}

#[test]
fn sanitize_display_name_collapses_control_chars_and_trims() {
    assert_eq!(
        sanitize_display_name("  <Alice & Co>\nAdmin  "),
        Some("<Alice & Co> Admin".to_owned())
    );
}

#[test]
fn sanitize_display_name_is_none_for_blank_input() {
    assert_eq!(sanitize_display_name("   \n\t "), None);
}

#[test]
fn with_names_escapes_display_name_html() {
    let mut names = NameMap::new();
    names.insert("@alice:example.org".to_owned(), "<Alice & Co>".to_owned());
    let c = mentionify_with_names("@alice:example.org", &names);
    let html = c.html.expect("should have HTML body");
    assert!(html.contains("&lt;Alice &amp; Co&gt;"));
    assert!(!html.contains("><Alice"));
}

#[test]
fn mentionify_sets_m_mentions_on_the_same_event() {
    let c = mentionify("Hello @alice:example.org!");
    assert_eq!(c.mentions, vec!["@alice:example.org".to_owned()]);
}

#[test]
fn mentionify_with_names_sets_m_mentions_for_every_pill() {
    let mut names = NameMap::new();
    names.insert("@alice:example.org".to_owned(), "Alice".to_owned());
    let c = mentionify_with_names("@alice:example.org and @bob:example.org", &names);
    assert_eq!(c.mentions.len(), 2);
    assert!(c.mentions.contains(&"@alice:example.org".to_owned()));
    assert!(c.mentions.contains(&"@bob:example.org".to_owned()));
}

#[test]
fn no_mxid_means_no_mentions_field() {
    let c = mentionify("no mentions here");
    assert!(c.mentions.is_empty());
}

#[test]
fn invalid_mxid_token_gets_a_pill_but_no_mention() {
    let c = mentionify("@alice:");
    assert!(c.mentions.is_empty());
    assert!(c.html.expect("should have HTML body").contains(">alice<"));
}

#[test]
fn a_message_is_written_out_exactly() {
    let mut names = NameMap::new();
    names.insert("@a:x.org".to_owned(), "O'Neil".to_owned());
    let c = mentionify_with_names("**Hi** @a:x.org, \"you\"\n~~no~~ > @b:x.org", &names);
    assert_eq!(c.plain, "Hi O'Neil, \"you\"\nno > b");
    assert_eq!(
        c.html.as_deref(),
        Some(
            "<strong>Hi</strong> <a href=\"https://matrix.to/#/@a:x.org\">O&#39;Neil</a>, \
             &quot;you&quot;<br><del>no</del> &gt; \
             <a href=\"https://matrix.to/#/@b:x.org\">b</a>"
        )
    );
    assert_eq!(c.mentions, vec!["@a:x.org".to_owned(), "@b:x.org".to_owned()]);
}

#[test]
fn open_markers_are_closed_and_short_tokens_are_text() {
    let c = mentionify("**bold ~~gone");
    assert_eq!(c.plain, "bold gone");
    assert_eq!(c.html.as_deref(), Some("<strong>bold <del>gone</strong></del>"));
    let c = mentionify("@a:b and @room");
    assert_eq!(c.plain, "@a:b and @room");
    assert!(c.html.is_none());
    let c = mentionify("a * b ~ c < d");
    assert_eq!(c.plain, "a * b ~ c < d");
    assert!(c.html.is_none());
}

#[test]
fn a_user_mentioned_twice_is_listed_once() {
    let c = mentionify("@alice:example.org @alice:example.org");
    assert_eq!(c.mentions, vec!["@alice:example.org".to_owned()]);
    assert_eq!(c.plain, "alice alice");
}

#[test]
fn a_token_length_is_counted_in_bytes() {
    // Four characters, five bytes.
    let c = mentionify("@é:b");
    assert_eq!(c.plain, "é");
    assert!(c.html.is_some());
}

#[test]
fn control_codes_of_a_name_become_spaces() {
    assert_eq!(sanitize_display_name("a\u{7f}b\u{85}c"), Some("a b c".to_owned()));
    assert_eq!(sanitize_display_name(""), None);
}

#[test]
fn cleaned_display_names_stay_as_they_are() {
    for name in ["  <Alice & Co>\nAdmin  ", "a\u{7f}b\u{85}c", "\u{1} x \u{2}", "plain"] {
        let once = sanitize_display_name(name).unwrap();
        assert_eq!(sanitize_display_name(&once), Some(once.clone()));
    }
}
