use cch::commands::session::{clip_lines, path_matches, truncate};

#[test]
fn truncate_collapses_whitespace() {
    assert_eq!(truncate("a   b\nc\td", 80), "a b c d");
}

#[test]
fn truncate_shorter_than_width_is_returned_as_is() {
    assert_eq!(truncate("short", 80), "short");
}

#[test]
fn truncate_clips_with_ellipsis() {
    let long = "x".repeat(200);
    let out = truncate(&long, 10);
    // 9 chars + ellipsis = 10
    assert_eq!(out.chars().count(), 10);
    assert!(out.ends_with('…'));
}

#[test]
fn truncate_handles_multibyte_safely() {
    let s = "é".repeat(100);
    let out = truncate(&s, 10);
    assert_eq!(out.chars().count(), 10);
    assert!(out.ends_with('…'));
}

#[test]
fn truncate_at_exact_width() {
    let s = "a".repeat(80);
    assert_eq!(truncate(&s, 80), s);
}

#[test]
fn path_matches_exact() {
    assert!(path_matches("/a/b/foo.rs", "/a/b/foo.rs"));
}

#[test]
fn path_matches_directory_prefix() {
    assert!(path_matches("/a/b/c/foo.rs", "/a/b"));
    assert!(path_matches("/a/b/c/foo.rs", "/a/b/"));
    // Must be a path boundary, not a string prefix:
    assert!(!path_matches("/abc/foo.rs", "/ab"));
}

#[test]
fn path_matches_basename_tail() {
    assert!(path_matches("/a/b/foo.rs", "foo.rs"));
    assert!(path_matches("/a/b/foo.rs", "b/foo.rs"));
    // Must be at a path boundary:
    assert!(!path_matches("/a/b/barfoo.rs", "foo.rs"));
}

#[test]
fn path_matches_relative_directory_prefix() {
    assert!(path_matches(
        "/home/u/repo/src/commands/session.rs",
        "src/commands"
    ));
    assert!(path_matches(
        "/home/u/repo/src/commands/session.rs",
        "src/commands/"
    ));
    // Boundary still required: a substring of a segment must not match.
    assert!(!path_matches(
        "/home/u/repo/src/commandsX/session.rs",
        "src/commands"
    ));
}

#[test]
fn path_matches_unrelated() {
    assert!(!path_matches("/x/y/z.rs", "/a/b"));
    assert!(!path_matches("/x/y/z.rs", "w.rs"));
}

#[test]
fn clip_lines_under_limit_is_unchanged() {
    let (out, dropped) = clip_lines("a\nb\nc", 5);
    assert_eq!(out, "a\nb\nc");
    assert_eq!(dropped, 0);
}

#[test]
fn clip_lines_at_exact_limit_is_unchanged() {
    let (out, dropped) = clip_lines("a\nb\nc", 3);
    assert_eq!(out, "a\nb\nc");
    assert_eq!(dropped, 0);
}

#[test]
fn clip_lines_over_limit_drops_tail() {
    let (out, dropped) = clip_lines("a\nb\nc\nd\ne", 2);
    assert_eq!(out, "a\nb");
    assert_eq!(dropped, 3);
}
