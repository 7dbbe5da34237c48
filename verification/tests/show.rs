use cch::commands::show::{fmt_ts, is_visible, is_wrapper_user_event, Opts};
use cch::transcript::{Event, Part, Role};
use cch::turns::{TurnSpec, TurnSpecError};

fn ev(role: Role, parts: Vec<Part>) -> Event {
    Event {
        role,
        is_sidechain: false,
        timestamp: None,
        parts,
    }
}

fn opts_with_role(role: Option<Role>) -> Opts {
    Opts {
        prefix: String::new(),
        include_sidechains: false,
        include_system: false,
        role,
        turns: None,
    }
}

#[test]
fn role_filter_user_keeps_user_text() {
    let e = ev(Role::User, vec![Part::Text("hi".into())]);
    assert!(is_visible(&e, &opts_with_role(Some(Role::User))));
}

#[test]
fn role_filter_user_drops_assistant() {
    let e = ev(Role::Assistant, vec![Part::Text("reply".into())]);
    assert!(!is_visible(&e, &opts_with_role(Some(Role::User))));
}

#[test]
fn role_filter_user_drops_tool_result_events() {
    // `type:user` event that only carries a tool_result: displayed as `tool`.
    let e = ev(Role::User, vec![Part::ToolResult("output".into())]);
    assert!(!is_visible(&e, &opts_with_role(Some(Role::User))));
}

#[test]
fn role_filter_assistant_keeps_assistant_with_tool_use() {
    let e = ev(
        Role::Assistant,
        vec![
            Part::Text("ok".into()),
            Part::ToolUse {
                name: "Bash".into(),
                summary: "command=ls".into(),
                file_path: None,
            },
        ],
    );
    assert!(is_visible(&e, &opts_with_role(Some(Role::Assistant))));
}

#[test]
fn role_filter_none_keeps_everything_visible() {
    let e = ev(Role::User, vec![Part::ToolResult("r".into())]);
    assert!(is_visible(&e, &opts_with_role(None)));
}

#[test]
fn role_filter_user_still_drops_wrapper_prompts() {
    let e = ev(
        Role::User,
        vec![Part::Text("<system-reminder>x</system-reminder>".into())],
    );
    assert!(!is_visible(&e, &opts_with_role(Some(Role::User))));
}

#[test]
fn wrapper_detection_hides_system_reminder_only() {
    let e = ev(
        Role::User,
        vec![Part::Text("<system-reminder>x</system-reminder>".into())],
    );
    assert!(is_wrapper_user_event(&e));
}

#[test]
fn wrapper_detection_keeps_real_text() {
    let e = ev(Role::User, vec![Part::Text("hey".into())]);
    assert!(!is_wrapper_user_event(&e));
}

#[test]
fn wrapper_detection_keeps_mixed_parts() {
    let e = ev(
        Role::User,
        vec![Part::Text("<wrapper>".into()), Part::ToolResult("r".into())],
    );
    assert!(!is_wrapper_user_event(&e));
}

#[test]
fn wrapper_detection_ignores_assistant() {
    let e = ev(Role::Assistant, vec![Part::Text("<x>".into())]);
    assert!(!is_wrapper_user_event(&e));
}

#[test]
fn wrapper_detection_all_empty_text_is_wrapper() {
    let e = ev(
        Role::User,
        vec![Part::Text("   ".into()), Part::Text("".into())],
    );
    assert!(is_wrapper_user_event(&e));
}

#[test]
fn fmt_ts_truncates_to_19_chars() {
    assert_eq!(fmt_ts("2026-04-23T09:15:30.000Z"), "2026-04-23 09:15:30");
}

#[test]
fn spec_parses_single() {
    assert_eq!(TurnSpec::parse("5").unwrap(), TurnSpec::Single(5));
    assert_eq!(TurnSpec::parse("-1").unwrap(), TurnSpec::Single(-1));
}

#[test]
fn spec_parses_ranges() {
    assert_eq!(
        TurnSpec::parse("1..5").unwrap(),
        TurnSpec::Range(Some(1), Some(5))
    );
    assert_eq!(
        TurnSpec::parse("..5").unwrap(),
        TurnSpec::Range(None, Some(5))
    );
    assert_eq!(
        TurnSpec::parse("5..").unwrap(),
        TurnSpec::Range(Some(5), None)
    );
    assert_eq!(
        TurnSpec::parse("-5..").unwrap(),
        TurnSpec::Range(Some(-5), None)
    );
    assert_eq!(TurnSpec::parse("..").unwrap(), TurnSpec::Range(None, None));
}

#[test]
fn spec_rejects_zero_and_garbage() {
    assert!(TurnSpec::parse("0").is_err());
    assert!(TurnSpec::parse("0..5").is_err());
    assert!(TurnSpec::parse("abc").is_err());
    assert!(TurnSpec::parse("").is_err());
}

#[test]
fn resolve_all_returns_full_range() {
    assert_eq!(TurnSpec::All.resolve(10).unwrap(), (1, 10));
}

#[test]
fn resolve_single_positive_and_negative() {
    assert_eq!(TurnSpec::Single(3).resolve(10).unwrap(), (3, 3));
    assert_eq!(TurnSpec::Single(-1).resolve(10).unwrap(), (10, 10));
    assert_eq!(TurnSpec::Single(-3).resolve(10).unwrap(), (8, 8));
    // Out-of-range single indices error (a specific turn that does not exist).
    assert!(TurnSpec::Single(99).resolve(10).is_err());
    assert!(TurnSpec::Single(-99).resolve(10).is_err());
}

#[test]
fn resolve_ranges() {
    let r = TurnSpec::Range(Some(2), Some(4)).resolve(10).unwrap();
    assert_eq!(r, (2, 4));
    // head
    assert_eq!(TurnSpec::Range(None, Some(3)).resolve(10).unwrap(), (1, 3));
    // tail via negative lo
    assert_eq!(
        TurnSpec::Range(Some(-3), None).resolve(10).unwrap(),
        (8, 10)
    );
    // open both ways
    assert_eq!(TurnSpec::Range(None, None).resolve(10).unwrap(), (1, 10));
}

#[test]
fn resolve_empty_when_lo_gt_hi() {
    let r = TurnSpec::Range(Some(5), Some(2)).resolve(10).unwrap();
    assert_eq!(r, (1, 0));
}

#[test]
fn resolve_empty_transcript() {
    assert_eq!(TurnSpec::All.resolve(0).unwrap(), (1, 0));
    assert_eq!(TurnSpec::Single(1).resolve(0).unwrap(), (1, 0));
}

#[test]
fn turn_errors_render_their_messages() {
    assert_eq!(TurnSpecError::Empty.message(), "empty --turns spec");
    assert_eq!(
        TurnSpecError::Zero.message(),
        "--turns: 0 is not a valid turn (use 1-indexed)"
    );
    assert_eq!(
        TurnSpecError::InvalidNumber(" x".into()).message(),
        "--turns: invalid number \" x\""
    );
    assert_eq!(
        TurnSpecError::OutOfRange(99, 10).message(),
        "--turns: 99 is out of range (transcript has 10 turns)"
    );
    assert_eq!(
        TurnSpecError::OutOfRange(-5, 1).message(),
        "--turns: -5 is out of range (transcript has 1 turn)"
    );
    assert_eq!(
        TurnSpecError::OutOfRange(i64::MIN, 0).message(),
        "--turns: -9223372036854775808 is out of range (transcript has 0 turns)"
    );
}

#[test]
fn turn_parse_reports_the_bad_piece() {
    assert!(matches!(TurnSpec::parse("2..x"), Err(TurnSpecError::InvalidNumber(s)) if s == "x"));
    assert!(matches!(TurnSpec::parse("0..3"), Err(TurnSpecError::Zero)));
    assert!(matches!(TurnSpec::parse("  "), Err(TurnSpecError::Empty)));
}

#[test]
fn resolved_windows_stay_within_the_transcript() {
    // An inverted range is empty whatever the total.
    assert_eq!(TurnSpec::Range(Some(15), None).resolve(10).unwrap(), (1, 0));
    assert_eq!(TurnSpec::Range(Some(5), Some(4)).resolve(3).unwrap(), (1, 0));
    assert_eq!(TurnSpec::Range(Some(2), Some(40)).resolve(10).unwrap(), (2, 10));
    assert_eq!(TurnSpec::Range(Some(-30), Some(-20)).resolve(10).unwrap(), (1, 1));
    assert_eq!(TurnSpec::Range(Some(3), Some(-1)).resolve(10).unwrap(), (3, 10));
}
