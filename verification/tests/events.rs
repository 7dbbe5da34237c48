//! Tests that start from transcript lines: the event model, blame scoring,
//! hit extraction and the pattern matcher.

use cch::commands::blame::{evaluate, Commit};
use cch::commands::grep::matcher::{find_ascii_ci, Matcher};
use cch::commands::grep::opts::{Hit, HitKind, Opts, SessionHits};
use cch::commands::grep::render::{json_records, print_session};
use cch::commands::grep::scan::{extract_hits, scan_events, MAX_MATCHES_PER_SESSION};
use cch::order::{stable_order, SortKey};
use cch::paths::{pick_project, ProjectError};
use cch::transcript::{parse_raw_event, Event, JsonEntry, JsonValue, Part, RawEvent, RawMessage, Role};

// ---------------------------------------------------------------------------
// Lines to events, as the command line decodes them
// ---------------------------------------------------------------------------

fn to_json(v: &serde_json::Value) -> JsonValue {
    match v {
        serde_json::Value::Null => JsonValue::Null,
        serde_json::Value::Bool(b) => JsonValue::Bool(*b),
        serde_json::Value::Number(n) => JsonValue::Number(n.to_string()),
        serde_json::Value::String(s) => JsonValue::Str(s.clone()),
        serde_json::Value::Array(a) => JsonValue::Array(a.iter().map(to_json).collect()),
        serde_json::Value::Object(o) => JsonValue::Object(
            o.iter()
                .map(|(k, v)| JsonEntry {
                    key: k.clone(),
                    value: to_json(v),
                })
                .collect(),
        ),
    }
}

fn opt_string(v: Option<&serde_json::Value>) -> Result<Option<String>, ()> {
    match v {
        None | Some(serde_json::Value::Null) => Ok(None),
        Some(serde_json::Value::String(s)) => Ok(Some(s.clone())),
        Some(_) => Err(()),
    }
}

/// Decodes a line the way the event record's field rules read it: `type`,
/// `timestamp` strings or null, `isSidechain` a boolean, `message` an object.
fn raw_event(line: &str) -> Option<RawEvent> {
    let v: serde_json::Value = serde_json::from_str(line).ok()?;
    let obj = v.as_object()?;
    let kind = opt_string(obj.get("type")).ok()?;
    let timestamp = opt_string(obj.get("timestamp")).ok()?;
    let is_sidechain = match obj.get("isSidechain") {
        None => false,
        Some(serde_json::Value::Bool(b)) => *b,
        Some(_) => return None,
    };
    let message = match obj.get("message") {
        None | Some(serde_json::Value::Null) => None,
        Some(serde_json::Value::Object(m)) => Some(RawMessage {
            content: match m.get("content") {
                None | Some(serde_json::Value::Null) => None,
                Some(c) => Some(to_json(c)),
            },
        }),
        Some(_) => return None,
    };
    Some(RawEvent {
        kind,
        is_sidechain,
        timestamp,
        message,
    })
}

fn parse_event(line: &str) -> Option<Event> {
    raw_event(line).map(|r| parse_raw_event(&r))
}

fn events_from(lines: &[&str]) -> Vec<Event> {
    lines.iter().filter_map(|l| parse_event(l)).collect()
}

// ---------------------------------------------------------------------------
// Event model
// ---------------------------------------------------------------------------

#[test]
fn parses_string_content() {
    let line = r#"{"type":"user","message":{"content":"hello"}}"#;
    let ev = parse_event(line).unwrap();
    assert_eq!(ev.role, Role::User);
    assert_eq!(ev.parts.len(), 1);
    assert!(matches!(&ev.parts[0], Part::Text(s) if s == "hello"));
}

#[test]
fn parses_array_content_with_tool_use() {
    let line = r#"{"type":"assistant","message":{"content":[
        {"type":"text","text":"running it"},
        {"type":"tool_use","name":"Bash","input":{"command":"ls -la"}}
    ]}}"#;
    let ev = parse_event(line).unwrap();
    assert_eq!(ev.role, Role::Assistant);
    assert_eq!(ev.parts.len(), 2);
    assert!(matches!(&ev.parts[0], Part::Text(s) if s == "running it"));
    match &ev.parts[1] {
        Part::ToolUse { name, summary, .. } => {
            assert_eq!(name, "Bash");
            assert_eq!(summary, "command=ls -la");
        }
        _ => panic!("expected tool_use"),
    }
}

#[test]
fn parses_tool_result_with_nested_content() {
    let line = r#"{"type":"user","message":{"content":[
        {"type":"tool_result","content":[{"type":"text","text":"ok"}]}
    ]}}"#;
    let ev = parse_event(line).unwrap();
    assert!(ev.is_tool_only());
    assert!(matches!(&ev.parts[0], Part::ToolResult(s) if s == "ok"));
}

#[test]
fn skips_invalid_line() {
    assert!(parse_event("not json").is_none());
}

#[test]
fn parses_sidechain_flag() {
    let line = r#"{"type":"user","isSidechain":true,"message":{"content":"x"}}"#;
    let ev = parse_event(line).unwrap();
    assert!(ev.is_sidechain);
}

#[test]
fn defaults_sidechain_to_false() {
    let line = r#"{"type":"user","message":{"content":"x"}}"#;
    let ev = parse_event(line).unwrap();
    assert!(!ev.is_sidechain);
}

#[test]
fn captures_timestamp_when_present() {
    let line = r#"{"type":"user","timestamp":"2026-04-23T10:00:00Z","message":{"content":"x"}}"#;
    let ev = parse_event(line).unwrap();
    assert_eq!(ev.timestamp.as_deref(), Some("2026-04-23T10:00:00Z"));
}

#[test]
fn missing_message_yields_no_parts() {
    let line = r#"{"type":"system"}"#;
    let ev = parse_event(line).unwrap();
    assert_eq!(ev.role, Role::System);
    assert!(ev.parts.is_empty());
}

#[test]
fn tool_use_picks_first_known_key() {
    let line = r#"{"type":"assistant","message":{"content":[
        {"type":"tool_use","name":"Edit","input":{"file_path":"/a/b.rs","pattern":"x"}}
    ]}}"#;
    let ev = parse_event(line).unwrap();
    match &ev.parts[0] {
        Part::ToolUse { name, summary, .. } => {
            assert_eq!(name, "Edit");
            assert_eq!(summary, "file_path=/a/b.rs");
        }
        _ => panic!("expected tool_use"),
    }
}

#[test]
fn tool_use_summary_trims_newlines_and_length() {
    let long: String = "a".repeat(200);
    let body = format!(
        r#"{{"type":"assistant","message":{{"content":[
            {{"type":"tool_use","name":"Bash","input":{{"command":"{cmd}\nmore"}}}}
        ]}}}}"#,
        cmd = long
    );
    let ev = parse_event(&body).unwrap();
    match &ev.parts[0] {
        Part::ToolUse { summary, .. } => {
            assert!(!summary.contains('\n'));
            assert!(summary.starts_with("command="));
            let val_len = summary.trim_start_matches("command=").chars().count();
            assert_eq!(val_len, 120);
        }
        _ => panic!("expected tool_use"),
    }
}

#[test]
fn tool_use_unknown_input_key_is_empty_summary() {
    let line = r#"{"type":"assistant","message":{"content":[
        {"type":"tool_use","name":"Mystery","input":{"foo":"bar"}}
    ]}}"#;
    let ev = parse_event(line).unwrap();
    match &ev.parts[0] {
        Part::ToolUse { summary, .. } => assert!(summary.is_empty()),
        _ => panic!(),
    }
}

#[test]
fn tool_result_with_string_content() {
    let line = r#"{"type":"user","message":{"content":[
        {"type":"tool_result","content":"direct string"}
    ]}}"#;
    let ev = parse_event(line).unwrap();
    assert!(matches!(&ev.parts[0], Part::ToolResult(s) if s == "direct string"));
}

#[test]
fn unknown_part_types_are_ignored() {
    let line = r#"{"type":"assistant","message":{"content":[
        {"type":"image","source":{}},
        {"type":"text","text":"after"}
    ]}}"#;
    let ev = parse_event(line).unwrap();
    assert_eq!(ev.parts.len(), 1);
    assert!(matches!(&ev.parts[0], Part::Text(s) if s == "after"));
}

#[test]
fn tool_use_without_name_is_question_mark_and_keeps_file_path() {
    let line = r#"{"type":"assistant","message":{"content":[
        {"type":"tool_use","input":{"file_path":"/x/y.rs"}}
    ]}}"#;
    let ev = parse_event(line).unwrap();
    match &ev.parts[0] {
        Part::ToolUse {
            name,
            summary,
            file_path,
        } => {
            assert_eq!(name, "?");
            assert_eq!(summary, "file_path=/x/y.rs");
            assert_eq!(file_path.as_deref(), Some("/x/y.rs"));
        }
        _ => panic!("expected tool_use"),
    }
}

#[test]
fn tool_result_joins_nested_texts_with_newlines() {
    let line = r#"{"type":"user","message":{"content":[
        {"type":"tool_result","content":[{"type":"text","text":"a"},{"type":"text","text":"b"}]}
    ]}}"#;
    let ev = parse_event(line).unwrap();
    assert!(matches!(&ev.parts[0], Part::ToolResult(s) if s == "a\nb"));
}

#[test]
fn unknown_type_is_other_role() {
    let ev = parse_event(r#"{"type":"summary","message":{"content":"x"}}"#).unwrap();
    assert_eq!(ev.role, Role::Other);
    let ev = parse_event(r#"{"message":{"content":"x"}}"#).unwrap();
    assert_eq!(ev.role, Role::Other);
}

// ---------------------------------------------------------------------------
// Blame scoring
// ---------------------------------------------------------------------------

fn commit(subject: &str, short: &str, full: &str, time: &str) -> Commit {
    Commit {
        full_sha: full.into(),
        short_sha: short.into(),
        time: time.into(),
        subject: subject.into(),
        repo_root: "/tmp".into(),
    }
}

#[test]
fn subject_match_is_strongest_signal() {
    let evs = events_from(&[
        r#"{"type":"assistant","message":{"content":"Let me commit: Add fancy feature"}}"#,
    ]);
    let c = evaluate(
        &evs,
        &commit("Add fancy feature", "abcdef1", "abcdef1234", "2026-04-23T10:00:00"),
    );
    assert!(c.matched_subject);
    assert!(!c.matched_sha);
    assert!(c.score() >= 100);
}

#[test]
fn sha_match_detected() {
    let evs = events_from(&[r#"{"type":"user","message":{"content":"look at commit 5e069c9 please"}}"#]);
    let c = evaluate(&evs, &commit("X", "5e069c9", "5e069c9abc123", "2026-04-23T10:00:00"));
    assert!(c.matched_sha);
}

#[test]
fn time_window_covers_commit() {
    let evs = events_from(&[
        r#"{"type":"user","timestamp":"2026-04-23T09:00:00.000Z","message":{"content":"start"}}"#,
        r#"{"type":"assistant","timestamp":"2026-04-23T11:00:00.000Z","message":{"content":"end"}}"#,
    ]);
    let c = evaluate(
        &evs,
        &commit("unrelated subject not here", "x", "y", "2026-04-23T10:00:00"),
    );
    assert!(c.window_covers_commit);
    assert!(!c.matched_subject);
    assert_eq!(c.score(), 10);
}

#[test]
fn time_window_excludes_commit_outside_range() {
    let evs = events_from(&[
        r#"{"type":"user","timestamp":"2026-04-22T09:00:00.000Z","message":{"content":"x"}}"#,
        r#"{"type":"assistant","timestamp":"2026-04-22T10:00:00.000Z","message":{"content":"y"}}"#,
    ]);
    let c = evaluate(&evs, &commit("s", "x", "y", "2026-04-23T10:00:00"));
    assert!(!c.window_covers_commit);
}

#[test]
fn short_subject_not_matched_to_avoid_false_positives() {
    let evs = events_from(&[r#"{"type":"user","message":{"content":"anywhere here fix goes"}}"#]);
    let c = evaluate(&evs, &commit("fix", "abcdef1", "abcdef1234", "2026-04-23T10:00:00"));
    assert!(!c.matched_subject);
}

#[test]
fn score_additive() {
    let evs = events_from(&[
        r#"{"type":"user","timestamp":"2026-04-23T09:00:00.000Z","message":{"content":"start"}}"#,
        r#"{"type":"assistant","timestamp":"2026-04-23T10:30:00.000Z","message":{"content":"commit message: Nice feature added"}}"#,
        r#"{"type":"assistant","timestamp":"2026-04-23T11:00:00.000Z","message":{"content":"sha is deadbeef123"}}"#,
    ]);
    let c = evaluate(
        &evs,
        &commit("Nice feature added", "deadbee", "deadbeef123", "2026-04-23T10:30:00"),
    );
    assert!(c.matched_subject);
    assert!(c.matched_sha);
    assert!(c.window_covers_commit);
    assert_eq!(c.score(), 160);
}

#[test]
fn searches_tool_use_summary() {
    let evs = events_from(&[
        r#"{"type":"assistant","message":{"content":[{"type":"tool_use","name":"Bash","input":{"command":"git commit -m 'Refactor parser module'"}}]}}"#,
    ]);
    let c = evaluate(
        &evs,
        &commit("Refactor parser module", "abcdef1", "abcdef1234567", "2026-04-23T10:00:00"),
    );
    assert!(c.matched_subject);
}

#[test]
fn authored_when_bash_git_commit_carries_subject() {
    let evs = events_from(&[
        r#"{"type":"assistant","message":{"content":[{"type":"tool_use","name":"Bash","input":{"command":"git commit -m 'Refactor parser module'"}}]}}"#,
    ]);
    let c = evaluate(
        &evs,
        &commit("Refactor parser module", "abcdef1", "abcdef1234567", "2026-04-23T10:00:00"),
    );
    assert!(c.authored_commit);
    assert!(c.score() >= 200);
}

#[test]
fn authored_requires_git_commit_in_argv_not_just_sha_in_text() {
    let evs = events_from(&[r#"{"type":"user","message":{"content":"look at abcdef1 please"}}"#]);
    let c = evaluate(
        &evs,
        &commit("Unrelated subject here", "abcdef1", "abcdef1234567", "2026-04-23T10:00:00"),
    );
    assert!(!c.authored_commit);
    assert!(c.matched_sha);
    assert!(c.is_cite_only());
}

#[test]
fn authored_also_triggers_on_sha_in_git_commit_argv() {
    let evs = events_from(&[
        r#"{"type":"assistant","message":{"content":[{"type":"tool_use","name":"Bash","input":{"command":"git commit --amend -C deadbeef"}}]}}"#,
    ]);
    let c = evaluate(
        &evs,
        &commit("Anything here", "deadbee", "deadbeef12345", "2026-04-23T10:00:00"),
    );
    assert!(c.authored_commit);
}

#[test]
fn no_match_when_unrelated() {
    let evs = events_from(&[
        r#"{"type":"user","timestamp":"2026-04-22T09:00:00.000Z","message":{"content":"nothing to see"}}"#,
    ]);
    let c = evaluate(
        &evs,
        &commit("Completely different thing", "ffffff1", "fffff12345", "2026-04-23T10:00:00"),
    );
    assert_eq!(c.score(), 0);
}

// ---------------------------------------------------------------------------
// Matcher
// ---------------------------------------------------------------------------

fn find_literal(hay: &str, needle: &str, case_sensitive: bool) -> Option<(usize, usize)> {
    Matcher::build(needle, case_sensitive, false).unwrap().find(hay)
}

#[test]
fn find_case_insensitive() {
    assert_eq!(find_literal("Hello World", "world", false), Some((6, 5)));
    assert_eq!(find_literal("Hello World", "world", true), None);
}

#[test]
fn find_case_insensitive_handles_all_upper() {
    assert_eq!(find_literal("xxxHELLOyyy", "hello", false), Some((3, 5)));
}

#[test]
fn find_case_insensitive_empty_needle() {
    assert_eq!(find_literal("abc", "", false), Some((0, 0)));
}

#[test]
fn find_ci_no_match_returns_none() {
    assert!(find_literal("needle_not_here", "zzz", false).is_none());
}

#[test]
fn find_ci_haystack_shorter_than_needle() {
    let hay: Vec<char> = "ab".chars().collect();
    let needle: Vec<char> = "abcd".chars().collect();
    assert!(find_ascii_ci(&hay, &needle).is_none());
}

#[test]
fn find_reports_byte_offsets_after_multibyte_text() {
    // "é" is two bytes: the match starts at byte 3, not character 2.
    assert_eq!(find_literal("aéNEEDLE", "NEEDLE", true), Some((3, 6)));
    assert_eq!(find_literal("aéneedle", "NEEDLE", false), Some((3, 6)));
}

#[test]
fn regex_matches_alternation_and_escapes() {
    let m = Matcher::build(r"P2\.?5", true, true).unwrap();
    assert_eq!(m.find("about P25 here").map(|(_, l)| l), Some(3));
    assert_eq!(m.find("see P2.5 today").map(|(_, l)| l), Some(4));
    assert!(m.find("P3.5 mismatch").is_none());

    let m = Matcher::build("choreographer|budget", false, true).unwrap();
    assert!(m.find("the Budget plan").is_some());
    assert!(m.find("Choreographer led").is_some());
    assert!(m.find("nothing here").is_none());
}

#[test]
fn regex_dot_with_alternation_and_quantifier() {
    let m = Matcher::build("keywords.*(Haiku|Sonnet|YAKE)", true, true).unwrap();
    assert!(m.find("keywords include Haiku today").is_some());
    assert!(m.find("keywords with YAKE extraction").is_some());
    assert!(m.find("keywords only").is_none());

    let m = Matcher::build("keyword.+Haiku|Haiku.+keyword", true, true).unwrap();
    assert!(m.find("keyword then Haiku").is_some());
    assert!(m.find("Haiku before keyword").is_some());
}

#[test]
fn regex_invalid_pattern_errors() {
    assert!(Matcher::build("(", true, true).is_err());
}

#[test]
fn regex_error_message_quotes_the_pattern() {
    let e = match Matcher::build("(", true, true) {
        Err(e) => e,
        Ok(_) => panic!("expected an error"),
    };
    assert!(e.message().starts_with("invalid regex \"(\": "));
}

#[test]
fn regex_find_reports_start_and_length() {
    let m = Matcher::build("b+", true, true).unwrap();
    assert_eq!(m.find("aabbbc"), Some((2, 3)));
}

// ---------------------------------------------------------------------------
// Hit extraction and scanning
// ---------------------------------------------------------------------------

fn lit(needle: &str) -> Matcher {
    Matcher::build(needle, true, false).unwrap()
}

fn base_opts(pattern: &str) -> Opts {
    Opts {
        pattern: pattern.into(),
        here: false,
        project: None,
        case_sensitive: true,
        regex: false,
        role: None,
        include_sidechains: false,
        no_tools: false,
        after: None,
        before: None,
        context_before: 0,
        context_after: 0,
        turns: None,
        json: false,
        files_with_matches: false,
        reverse: false,
        stats: false,
    }
}

#[test]
fn extract_hits_respects_max_per_session() {
    let ev = Event {
        role: Role::Assistant,
        is_sidechain: false,
        timestamp: None,
        parts: (0..20).map(|_| Part::Text("NEEDLE here NEEDLE".into())).collect(),
    };
    let mut hits = Vec::new();
    extract_hits(&ev, &lit("NEEDLE"), false, Some(1), false, false, &mut hits);
    assert_eq!(hits.len(), MAX_MATCHES_PER_SESSION);
}

#[test]
fn extract_hits_skips_tool_use_parts() {
    let ev = Event {
        role: Role::Assistant,
        is_sidechain: false,
        timestamp: None,
        parts: vec![
            Part::ToolUse {
                name: "X".into(),
                summary: "NEEDLE".into(),
                file_path: None,
            },
            Part::Text("NEEDLE".into()),
        ],
    };
    let mut hits = Vec::new();
    extract_hits(&ev, &lit("NEEDLE"), false, Some(1), false, false, &mut hits);
    assert_eq!(hits.len(), 1);
    assert!(!hits[0].is_tool);
}

#[test]
fn extract_hits_skips_tool_result_when_no_tools() {
    let ev = Event {
        role: Role::User,
        is_sidechain: false,
        timestamp: None,
        parts: vec![
            Part::ToolResult("NEEDLE in dump".into()),
            Part::Text("NEEDLE in text".into()),
        ],
    };
    let mut hits = Vec::new();
    extract_hits(&ev, &lit("NEEDLE"), true, Some(1), false, false, &mut hits);
    assert_eq!(hits.len(), 1);
    assert!(!hits[0].is_tool);
}

#[test]
fn extract_hits_marks_tool_result() {
    let ev = Event {
        role: Role::User,
        is_sidechain: false,
        timestamp: None,
        parts: vec![Part::ToolResult("NEEDLE".into())],
    };
    let mut hits = Vec::new();
    extract_hits(&ev, &lit("NEEDLE"), false, Some(1), false, false, &mut hits);
    assert_eq!(hits.len(), 1);
    assert!(hits[0].is_tool);
}

#[test]
fn role_user_excludes_tool_result_parts_of_mixed_events() {
    let ev = Event {
        role: Role::User,
        is_sidechain: false,
        timestamp: None,
        parts: vec![
            Part::ToolResult("NEEDLE in dump".into()),
            Part::Text("NEEDLE in prompt".into()),
        ],
    };
    let mut hits = Vec::new();
    extract_hits(&ev, &lit("NEEDLE"), true, Some(1), false, false, &mut hits);
    assert_eq!(hits.len(), 1);
    assert!(!hits[0].is_tool);
    assert!(hits[0].snippet.contains("prompt"));
}

fn scan(lines: &[&str], opts: &Opts) -> Vec<Hit> {
    let m = Matcher::build(&opts.pattern, opts.case_sensitive, opts.regex).unwrap();
    scan_events(&events_from(lines), opts, &m, false).unwrap()
}

#[test]
fn scan_no_tools_drops_tool_only_events() {
    let opts = Opts {
        no_tools: true,
        ..base_opts("NEEDLE")
    };
    let hits = scan(
        &[
            r#"{"type":"user","message":{"content":[{"type":"tool_result","content":"NEEDLE in bash dump"}]}}"#,
            r#"{"type":"assistant","message":{"content":"NEEDLE in reply"}}"#,
        ],
        &opts,
    );
    assert_eq!(hits.len(), 1);
    assert_eq!(hits[0].role, Role::Assistant);
    assert!(!hits[0].is_tool);
}

#[test]
fn scan_respects_sidechain_flag() {
    let lines = [
        r#"{"type":"assistant","isSidechain":true,"message":{"content":"NEEDLE"}}"#,
        r#"{"type":"assistant","message":{"content":"NEEDLE main"}}"#,
    ];
    assert_eq!(scan(&lines, &base_opts("NEEDLE")).len(), 1);
    let incl = Opts {
        include_sidechains: true,
        ..base_opts("NEEDLE")
    };
    assert_eq!(scan(&lines, &incl).len(), 2);
}

#[test]
fn scan_role_user_excludes_tool_only_events() {
    let opts = Opts {
        role: Some(Role::User),
        ..base_opts("NEEDLE")
    };
    let hits = scan(
        &[
            r#"{"type":"user","message":{"content":[{"type":"tool_result","content":"NEEDLE in bash output"}]}}"#,
            r#"{"type":"user","message":{"content":"NEEDLE typed by human"}}"#,
        ],
        &opts,
    );
    assert_eq!(hits.len(), 1);
    assert!(!hits[0].is_tool);
    assert!(hits[0].snippet.contains("typed by human"));
}

#[test]
fn scan_default_excludes_system() {
    assert!(scan(&[r#"{"type":"system","message":{"content":"NEEDLE"}}"#], &base_opts("NEEDLE")).is_empty());
}

#[test]
fn scan_numbers_turns_matching_cc_show() {
    let hits = scan(
        &[
            r#"{"type":"user","message":{"content":"hello"}}"#,
            r#"{"type":"user","message":{"content":"<system-reminder>x</system-reminder>"}}"#,
            r#"{"type":"assistant","message":{"content":"first reply"}}"#,
            r#"{"type":"assistant","isSidechain":true,"message":{"content":"NEEDLE in side"}}"#,
            r#"{"type":"assistant","message":{"content":"answer with NEEDLE inside"}}"#,
        ],
        &base_opts("NEEDLE"),
    );
    assert_eq!(hits.len(), 1);
    assert_eq!(hits[0].turn, Some(3));
}

#[test]
fn scan_context_before_and_after() {
    let opts = Opts {
        context_before: 1,
        context_after: 1,
        ..base_opts("NEEDLE")
    };
    let hits = scan(
        &[
            r#"{"type":"user","message":{"content":"turn one"}}"#,
            r#"{"type":"assistant","message":{"content":"turn two"}}"#,
            r#"{"type":"user","message":{"content":"NEEDLE three"}}"#,
            r#"{"type":"assistant","message":{"content":"turn four"}}"#,
            r#"{"type":"user","message":{"content":"turn five"}}"#,
        ],
        &opts,
    );
    let kinds: Vec<HitKind> = hits.iter().map(|h| h.kind).collect();
    assert_eq!(kinds, vec![HitKind::Context, HitKind::Match, HitKind::Context]);
    let turns: Vec<Option<usize>> = hits.iter().map(|h| h.turn).collect();
    assert_eq!(turns, vec![Some(2), Some(3), Some(4)]);
}

#[test]
fn scan_files_with_matches_stops_after_first_matching_event() {
    let opts = Opts {
        files_with_matches: true,
        ..base_opts("NEEDLE")
    };
    let hits = scan(
        &[
            r#"{"type":"user","message":{"content":"NEEDLE one"}}"#,
            r#"{"type":"assistant","message":{"content":"NEEDLE two"}}"#,
        ],
        &opts,
    );
    assert_eq!(hits.len(), 1);
}

#[test]
fn scan_turn_window_gates_matches() {
    let opts = Opts {
        turns: Some(cch::turns::TurnSpec::Range(Some(2), Some(2))),
        ..base_opts("NEEDLE")
    };
    let hits = scan(
        &[
            r#"{"type":"user","message":{"content":"NEEDLE one"}}"#,
            r#"{"type":"assistant","message":{"content":"NEEDLE two"}}"#,
            r#"{"type":"user","message":{"content":"NEEDLE three"}}"#,
        ],
        &opts,
    );
    assert_eq!(hits.len(), 1);
    assert_eq!(hits[0].turn, Some(2));
}

#[test]
fn scan_single_turn_beyond_end_is_refused() {
    let opts = Opts {
        turns: Some(cch::turns::TurnSpec::Single(9)),
        ..base_opts("NEEDLE")
    };
    let m = lit("NEEDLE");
    let evs = events_from(&[r#"{"type":"user","message":{"content":"NEEDLE one"}}"#]);
    let r = scan_events(&evs, &opts, &m, false);
    assert!(matches!(r, Err(cch::turns::TurnSpecError::OutOfRange(9, 1))));
}

#[test]
fn grep_json_emits_one_object_per_match_with_keys() {
    let opts = Opts {
        json: true,
        context_before: 1,
        ..base_opts("JSNDL")
    };
    let hits = scan(
        &[
            r#"{"type":"user","timestamp":"2026-04-23T10:00:00.000Z","message":{"content":"JSNDL one"}}"#,
            r#"{"type":"assistant","timestamp":"2026-04-23T10:00:01.000Z","message":{"content":"JSNDL two"}}"#,
        ],
        &opts,
    );
    let results = vec![SessionHits {
        id: "jsonout1-0000-0000-0000-000000000000".into(),
        project: "-proj".into(),
        first_prompt: None,
        hits,
    }];
    let recs = json_records(&results);
    assert_eq!(recs.len(), 2);
    for r in &recs {
        assert_eq!(r.session, "jsonout1-0000-0000-0000-000000000000");
        assert_eq!(r.project, "-proj");
        assert!(r.timestamp.is_some());
        assert!(r.turn.is_some());
        assert!(!r.tool);
        assert!(!r.snippet.contains('\x1b'));
        assert!(r.snippet.contains("JSNDL"));
    }
    assert_eq!(recs[0].role, "user");
    assert_eq!(recs[1].role, "assistant");
}

#[test]
fn grep_snippet_centers_long_line_around_match() {
    let long = format!("{}SNPNDL{}", "a".repeat(600), "b".repeat(600));
    let line = format!(
        r#"{{"type":"assistant","message":{{"content":{}}}}}"#,
        serde_json::Value::String(long)
    );
    let hits = scan(&[&line], &base_opts("SNPNDL"));
    let s = SessionHits {
        id: "snip0001-0000-0000-0000-000000000000".into(),
        project: "-proj".into(),
        first_prompt: None,
        hits,
    };
    let out = print_session(&s, false);
    let hit = out.lines().find(|l| l.contains("SNPNDL")).expect("hit line missing");
    assert!(hit.contains('…'), "expected truncation ellipsis: {hit:?}");
    assert!(hit.chars().count() < 300, "snippet too wide: {} chars", hit.chars().count());
}

#[test]
fn grep_orders_sessions_most_recent_first() {
    // Sessions listed oldest file first; the newer modification time wins.
    let keys = vec![
        SortKey {
            major: 1_776_816_000,
            minor: None,
        },
        SortKey {
            major: 1_776_945_600,
            minor: None,
        },
    ];
    assert_eq!(stable_order(&keys, true), vec![1, 0]);
    assert_eq!(stable_order(&keys, false), vec![0, 1]);
}

// ---------------------------------------------------------------------------
// Project names
// ---------------------------------------------------------------------------

#[test]
fn resolve_project_bare_name_missing_errors() {
    let dirs: Vec<String> = vec!["-home-a-other".into()];
    let err = pick_project("definitely-not-a-real-project-name-xyz-9999", &dirs).expect_err("expected miss");
    assert!(matches!(err, ProjectError::NoMatch(_)));
    assert!(err.message("/home/a/projects").contains("no project matches"));
}

#[test]
fn pick_project_finds_worktree_by_basename() {
    let dirs: Vec<String> = vec!["-home-a-x".into(), "-home-a-my-app".into(), "-srv-z".into()];
    assert_eq!(pick_project("my.app", &dirs).unwrap(), 1);
    let dirs2: Vec<String> = vec!["-home-a-app".into(), "-home-b-app".into()];
    match pick_project("app", &dirs2) {
        Err(ProjectError::Ambiguous(n, list)) => {
            assert_eq!(n, "app");
            assert_eq!(list, vec!["-home-a-app".to_string(), "-home-b-app".to_string()]);
        }
        other => panic!("expected ambiguity, got {other:?}"),
    }
    let e = pick_project("app", &dirs2).unwrap_err();
    assert_eq!(
        e.message("/r"),
        "ambiguous project \"app\", candidates:\n  -home-a-app\n  -home-b-app"
    );
    let e = pick_project("nope", &dirs2).unwrap_err();
    assert_eq!(
        e.message("/r"),
        "no project matches \"nope\" under /r\n  (try a path, or `ls /r`)"
    );
}
