use cch::commands::grep::render::{fmt_ts, fmt_turn, pad};
use cch::commands::grep::scan::event_preview;
use cch::transcript::{Event, Part, Role};

#[test]
fn pad_extends_shorter_strings_only() {
    assert_eq!(pad("abc", 6), "abc   ");
    assert_eq!(pad("abcdef", 3), "abcdef");
}

#[test]
fn fmt_ts_truncates_and_swaps_t() {
    assert_eq!(fmt_ts("2026-04-23T10:30:15.123Z"), "2026-04-23 10:30:15");
    // Also works for short timestamps.
    assert_eq!(fmt_ts("2026-04-23"), "2026-04-23");
}

#[test]
fn fmt_turn_pads_to_four_chars() {
    assert_eq!(fmt_turn(Some(7)).chars().count(), 4);
    assert_eq!(fmt_turn(Some(42)), " #42");
    assert_eq!(fmt_turn(Some(123)), "#123");
    // Overflow still safe: just wider than 4.
    assert!(fmt_turn(Some(9999)).ends_with("#9999"));
    assert_eq!(fmt_turn(None), "  - ");
}

#[test]
fn context_preview_shows_tool_use_tag() {
    let ev = Event {
        role: Role::Assistant,
        is_sidechain: false,
        timestamp: None,
        parts: vec![Part::ToolUse {
            name: "Bash".into(),
            summary: "command=ls".into(),
            file_path: None,
        }],
    };
    assert_eq!(event_preview(&ev), "[Bash: command=ls]");
}
