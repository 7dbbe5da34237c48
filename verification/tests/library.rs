//! Tests of the library's decisions on concrete values: one per law of the
//! library, the error variants, and the edge cases of each command.

use cch::cli::{dispatch, numeric_shortcut, Cli, CliError, Command, Plan, RoleArg};
use cch::commands::blame::{blame_report, rank_candidates, Candidate, Commit};
use cch::commands::commits::{add_days, day_shift, keep_row};
use cch::commands::grep::matcher::Matcher;
use cch::commands::grep::opts::{Hit, HitKind, Opts, SessionHits};
use cch::commands::grep::render::{grep_exit_code, json_records, session_ids};
use cch::commands::grep::scan::scan_events;
use cch::commands::session::{empty_message, keep_entries, list_mode, print_list, ListMode};
use cch::commands::show::{show_text, Opts as ShowOpts};
use cch::order::{stable_order, SortKey};
use cch::session::{first_user_prompt, resolve_prefix, ResolveError, SessionEntry, TranscriptFile};
use cch::timebounds::{in_range, parse_bound, BoundError};
use cch::transcript::{Event, Part, Role};
use cch::turns::{TurnSpec, TurnSpecError};

fn ev(role: Role, ts: Option<&str>, text: &str) -> Event {
    Event {
        role,
        is_sidechain: false,
        timestamp: ts.map(|t| t.to_string()),
        parts: vec![Part::Text(text.into())],
    }
}

fn file(id: &str, project: &str) -> TranscriptFile {
    TranscriptFile {
        path: format!("/store/{project}/{id}.jsonl"),
        id: id.into(),
        project: project.into(),
    }
}

// ---------------------------------------------------------------------------
// Resolving a session prefix
// ---------------------------------------------------------------------------

#[test]
fn unique_prefix_resolves_to_its_session() {
    let all = vec![file("a1b2c3", "-p"), file("ffff00", "-q")];
    assert_eq!(resolve_prefix("a1", &all).unwrap(), "/store/-p/a1b2c3.jsonl");
}

#[test]
fn exact_id_wins_over_longer_ids() {
    let all = vec![file("abc123", "-p"), file("abc", "-q")];
    assert_eq!(resolve_prefix("abc", &all).unwrap(), "/store/-q/abc.jsonl");
}

#[test]
fn prefix_errors_name_the_problem() {
    let all = vec![file("abc1", "-p"), file("abc2", "-q")];
    assert!(matches!(resolve_prefix("", &all), Err(ResolveError::Empty)));
    match resolve_prefix("zz", &all) {
        Err(e @ ResolveError::NotFound(_)) => {
            assert_eq!(e.message(), "no session matching prefix 'zz'")
        }
        other => panic!("expected not found, got {other:?}"),
    }
    match resolve_prefix("abc", &all) {
        Err(e @ ResolveError::Ambiguous(..)) => assert_eq!(
            e.message(),
            "ambiguous prefix 'abc' — 2 matches:\n  abc1  -p\n  abc2  -q"
        ),
        other => panic!("expected ambiguity, got {other:?}"),
    }
}

// ---------------------------------------------------------------------------
// Command line
// ---------------------------------------------------------------------------

#[test]
fn numeric_shortcut_splits_the_argument_after_session() {
    let args: Vec<Option<String>> = ["cch", "session", "-3"].iter().map(|s| Some(s.to_string())).collect();
    assert_eq!(numeric_shortcut(&args), Some((2, "3".to_string())));
    let args: Vec<Option<String>> = ["cch", "session", "-n", "3"].iter().map(|s| Some(s.to_string())).collect();
    assert_eq!(numeric_shortcut(&args), None);
    let args: Vec<Option<String>> = ["cch", "grep", "-3"].iter().map(|s| Some(s.to_string())).collect();
    assert_eq!(numeric_shortcut(&args), None);
    let args: Vec<Option<String>> = ["cch", "session", "--all"].iter().map(|s| Some(s.to_string())).collect();
    assert_eq!(numeric_shortcut(&args), None);
}

fn grep_command(after: Option<&str>, before: Option<&str>, a: Option<usize>, c: Option<usize>) -> Cli {
    Cli {
        command: Command::Grep {
            pattern: "x".into(),
            here: false,
            project: None,
            case_sensitive: false,
            regex: false,
            no_tools: false,
            role: RoleArg::User,
            sidechains: false,
            after: after.map(|s| s.to_string()),
            before: before.map(|s| s.to_string()),
            after_context: a,
            before_context: None,
            context: c,
            turns: None,
            json: false,
            files_with_matches: false,
            reverse: false,
            stats: false,
        },
    }
}

#[test]
fn dispatch_normalizes_bounds_and_defaults_context() {
    match dispatch(grep_command(Some("2026-04-23"), None, None, Some(2))) {
        Ok(Plan::Grep(g)) => {
            assert_eq!(g.after.as_deref(), Some("2026-04-23T00:00:00"));
            assert_eq!(g.before, None);
            assert_eq!(g.context_after, 2);
            assert_eq!(g.context_before, 2);
            assert_eq!(g.role, Some(Role::User));
        }
        _ => panic!("expected a grep plan"),
    }
    match dispatch(grep_command(None, None, Some(1), Some(4))) {
        Ok(Plan::Grep(g)) => {
            assert_eq!(g.context_after, 1);
            assert_eq!(g.context_before, 4);
        }
        _ => panic!("expected a grep plan"),
    }
}

#[test]
fn dispatch_reports_the_first_bad_bound() {
    match dispatch(grep_command(Some("yesterday"), Some("2026-04-23Tnoon"), None, None)) {
        Err(CliError::Bound(BoundError::InvalidDate(s))) => assert_eq!(s, "yesterday"),
        _ => panic!("expected the --after error"),
    }
    match dispatch(grep_command(None, Some("2026-04-23Tnoon"), None, None)) {
        Err(e @ CliError::Bound(BoundError::InvalidTime(_))) => assert_eq!(
            e.message(),
            "invalid time: expected HH, HH:MM, or HH:MM:SS, got \"2026-04-23Tnoon\""
        ),
        _ => panic!("expected the --before error"),
    }
}

// ---------------------------------------------------------------------------
// Sessions
// ---------------------------------------------------------------------------

#[test]
fn first_user_prompt_skips_wrappers_sidechains_and_tools() {
    let mut side = ev(Role::User, None, "sub");
    side.is_sidechain = true;
    let events = vec![
        ev(Role::System, None, "ignored"),
        side,
        ev(Role::User, None, "<system-reminder>skip</system-reminder>"),
        Event {
            role: Role::User,
            is_sidechain: false,
            timestamp: None,
            parts: vec![Part::ToolResult("output".into())],
        },
        ev(Role::User, None, "  hello there  "),
        ev(Role::User, None, "second"),
    ];
    assert_eq!(first_user_prompt(&events).as_deref(), Some("hello there"));
    assert_eq!(first_user_prompt(&vec![ev(Role::Assistant, None, "reply")]), None);
}

fn entry(stem: &str, prompt: Option<&str>) -> SessionEntry {
    SessionEntry {
        path: format!("/p/{stem}.jsonl"),
        stem: stem.into(),
        mtime_secs: 0,
        first_prompt: prompt.map(|p| p.to_string()),
    }
}

#[test]
fn session_list_numbers_and_caps_at_ten() {
    let few = vec![entry("aaaa", Some("first   prompt\nhere")), entry("bbbb", None)];
    assert_eq!(
        print_list(&few),
        "-1  aaaa  first prompt here\n-2  bbbb  (no user prompt)\n"
    );
    let many: Vec<SessionEntry> = (0..12).map(|i| entry(&format!("s{i:02}"), Some("p"))).collect();
    let out = print_list(&many);
    assert_eq!(out.lines().count(), 11);
    assert!(out.starts_with("-1  s00  p\n"));
    assert!(out.contains("-10 s09  p\n"));
    assert!(out.ends_with("… 2 older — `cch session -n 12` to see all\n"));
}

#[test]
fn list_mode_checks_head_before_count() {
    assert_eq!(list_mode(None, None), Ok(ListMode::Lines));
    assert_eq!(list_mode(Some(3), Some(2)), Ok(ListMode::Full(3)));
    assert_eq!(list_mode(Some(0), Some(0)), Err("--head must be >= 1"));
    assert_eq!(list_mode(Some(0), None), Err("Count must be >= 1"));
    assert_eq!(list_mode(None, Some(0)), Err("--head must be >= 1"));
}

#[test]
fn empty_listing_says_which_filter_emptied_it() {
    assert_eq!(
        empty_message(Some("abc1234"), Some("src"), true, "/w"),
        "No sessions produced commit abc1234 in /w"
    );
    assert_eq!(
        empty_message(None, Some("src/cli.rs"), true, "/w"),
        "No sessions touched \"src/cli.rs\" in /w"
    );
    assert_eq!(empty_message(None, None, true, "/w"), "No sessions in that window for /w");
    assert_eq!(empty_message(None, None, false, "/w"), "No sessions found for /w");
}

// ---------------------------------------------------------------------------
// show
// ---------------------------------------------------------------------------

fn show_opts(turns: Option<&str>) -> ShowOpts {
    ShowOpts {
        prefix: "x".into(),
        include_sidechains: false,
        include_system: false,
        role: None,
        turns: turns.map(|t| t.to_string()),
    }
}

#[test]
fn show_numbers_printed_turns_and_reports_the_total() {
    let events = vec![
        ev(Role::User, Some("2026-04-23T10:00:00.000Z"), "hello"),
        ev(Role::User, None, "<system-reminder>x</system-reminder>"),
        ev(Role::Assistant, None, "hi"),
    ];
    let out = show_text("abc", "-proj", &events, &show_opts(None), false).unwrap();
    assert_eq!(
        out,
        "abc  -proj\n── #1 user · 2026-04-23 10:00:00 ──\nhello\n\n── #2 assistant ──\nhi\n\n── 2 turns ──\n"
    );
    let out = show_text("abc", "-proj", &events, &show_opts(Some("-1")), false).unwrap();
    assert!(out.contains("── #2 assistant ──\nhi\n"));
    assert!(!out.contains("hello"));
    assert!(out.ends_with("── turns 2–2 of 2 ──\n"));
}

#[test]
fn show_refuses_a_single_turn_beyond_the_end() {
    let events = vec![ev(Role::User, None, "hello")];
    match show_text("abc", "-proj", &events, &show_opts(Some("5")), false) {
        Err(e) => {
            assert_eq!(e, TurnSpecError::OutOfRange(5, 1));
            assert_eq!(e.message(), "--turns: 5 is out of range (transcript has 1 turn)");
        }
        Ok(_) => panic!("expected an error"),
    }
    assert!(matches!(
        show_text("abc", "-proj", &events, &show_opts(Some("x")), false),
        Err(TurnSpecError::InvalidNumber(_))
    ));
}

#[test]
fn turn_selectors_clamp_the_most_negative_index() {
    assert_eq!(TurnSpec::Range(Some(i64::MIN), None).resolve(10).unwrap(), (1, 10));
    assert_eq!(TurnSpec::Range(None, Some(i64::MIN)).resolve(10).unwrap(), (1, 1));
    assert_eq!(TurnSpec::Range(Some(i64::MIN), Some(-1)).resolve(10).unwrap(), (1, 10));
    assert_eq!(TurnSpec::Range(Some(i64::MIN), None).resolve(0).unwrap(), (1, 0));
    assert_eq!(TurnSpec::parse("-9223372036854775808..").unwrap().resolve(10).unwrap(), (1, 10));
    assert!(matches!(
        TurnSpec::Single(i64::MIN).resolve(10),
        Err(TurnSpecError::OutOfRange(i64::MIN, 10))
    ));
}

// ---------------------------------------------------------------------------
// grep
// ---------------------------------------------------------------------------

fn grep_opts(pattern: &str) -> Opts {
    Opts {
        pattern: pattern.into(),
        here: false,
        project: None,
        case_sensitive: false,
        regex: false,
        role: None,
        include_sidechains: false,
        no_tools: false,
        after: None,
        before: None,
        context_before: 0,
        context_after: 0,
        turns: None,
        json: false,
        files_with_matches: false,
        reverse: false,
        stats: false,
    }
}

#[test]
fn scan_bounds_keep_events_in_the_window() {
    let events = vec![
        ev(Role::User, Some("2026-04-22T12:00:00.000Z"), "ALIZ early"),
        ev(Role::User, Some("2026-04-23T16:30:00.000Z"), "ALIZ middle"),
        ev(Role::User, Some("2026-04-23T18:00:00.000Z"), "ALIZ late"),
        ev(Role::User, None, "ALIZ undated"),
    ];
    let opts = Opts {
        after: Some(parse_bound("2026-04-23").unwrap()),
        before: Some(parse_bound("2026-04-23T17:00").unwrap()),
        ..grep_opts("aliz")
    };
    let m = Matcher::build("aliz", false, false).unwrap();
    let hits = scan_events(&events, &opts, &m, false).unwrap();
    assert_eq!(hits.len(), 1);
    assert!(hits[0].snippet.contains("middle"));
    assert_eq!(hits[0].turn, Some(2));
}

#[test]
fn timestamps_compare_by_their_first_nineteen_characters() {
    assert!(in_range(Some("2026-04-23T17:00:0é"), Some("2026-04-23T00:00:00"), None));
    assert!(in_range(Some("2026-04-23T17:00:0é"), None, Some("2026-04-23T17:00:1")));
    assert!(!in_range(Some("2026-04-23T17:00:0é"), None, Some("2026-04-23T17:00:0é")));
    assert!(in_range(Some("2026-04-23T17:00:00éé"), Some("2026-04-23T17:00:00"), None));
    assert!(in_range(Some("short"), None, Some("zzz")));
}

fn hit(kind: HitKind, role: Role, is_tool: bool, text: &str) -> Hit {
    Hit {
        kind,
        role,
        is_tool,
        timestamp: Some("2026-04-23T10:00:00Z".into()),
        turn: Some(1),
        snippet: text.into(),
    }
}

#[test]
fn json_records_keep_match_rows_only_and_label_tool_output() {
    let results = vec![
        SessionHits {
            id: "s1".into(),
            project: "-p".into(),
            first_prompt: None,
            hits: vec![
                hit(HitKind::Context, Role::User, false, "ctx"),
                hit(HitKind::Match, Role::User, true, "in output"),
            ],
        },
        SessionHits {
            id: "s2".into(),
            project: "-q".into(),
            first_prompt: None,
            hits: vec![hit(HitKind::Match, Role::Assistant, false, "reply")],
        },
    ];
    let recs = json_records(&results);
    assert_eq!(recs.len(), 2);
    assert_eq!((recs[0].session.as_str(), recs[0].role.as_str(), recs[0].tool), ("s1", "tool", true));
    assert_eq!((recs[1].session.as_str(), recs[1].role.as_str(), recs[1].tool), ("s2", "assistant", false));
    assert_eq!(session_ids(&results), vec!["s1".to_string(), "s2".to_string()]);
}

#[test]
fn stable_order_keeps_ties_in_input_order() {
    let k = |major: u128, minor: Option<&str>| SortKey {
        major,
        minor: minor.map(|s| s.to_string()),
    };
    let keys = vec![k(5, None), k(7, None), k(5, None), k(7, Some("b")), k(7, Some("a"))];
    assert_eq!(stable_order(&keys, true), vec![3, 4, 1, 0, 2]);
    assert_eq!(stable_order(&keys, false), vec![0, 2, 1, 4, 3]);
}

// ---------------------------------------------------------------------------
// blame
// ---------------------------------------------------------------------------

fn cand(id: &str, authored: bool, subject: bool, sha: bool, window: bool, last: &str) -> Candidate {
    Candidate {
        path: format!("/p/{id}.jsonl"),
        id: id.into(),
        first_prompt: None,
        first_ts: Some("2026-04-20T00:00:00Z".into()),
        last_ts: Some(last.into()),
        matched_subject: subject,
        matched_sha: sha,
        window_covers_commit: window,
        authored_commit: authored,
    }
}

#[test]
fn authored_candidates_rank_first_and_citations_drop() {
    let all = vec![
        cand("cite0001", false, false, true, false, "2026-04-25T00:00:00Z"),
        cand("subj0001", false, true, true, true, "2026-04-24T00:00:00Z"),
        cand("auth0001", true, false, false, false, "2026-04-21T00:00:00Z"),
        cand("none0001", false, false, false, false, "2026-04-26T00:00:00Z"),
    ];
    let (ranked, earliest) = rank_candidates(all);
    let ids: Vec<&str> = ranked.iter().map(|c| c.id.as_str()).collect();
    assert_eq!(ids, vec!["auth0001", "subj0001"]);
    assert_eq!(earliest.as_deref(), Some("2026-04-20T00:00:00"));
    assert_eq!(ranked[0].score(), 200);
    assert_eq!(ranked[1].score(), 160);
}

#[test]
fn equal_scores_rank_the_later_session_first() {
    let all = vec![
        cand("early001", false, true, false, false, "2026-04-21T00:00:00Z"),
        cand("later001", false, true, false, false, "2026-04-22T00:00:00Z"),
    ];
    let (ranked, _) = rank_candidates(all);
    assert_eq!(ranked[0].id, "later001");
}

fn commit() -> Commit {
    Commit {
        full_sha: "abcdef1234".into(),
        short_sha: "abcdef1".into(),
        time: "2026-04-23T10:00:00".into(),
        subject: "Add fancy feature".into(),
        repo_root: "/repo".into(),
    }
}

#[test]
fn blame_report_credits_an_author_or_explains_why_not() {
    let found = blame_report(&commit(), vec![cand("auth0001", true, false, false, false, "2026-04-24T00:00:00Z")], false);
    assert_eq!(found.code, 0);
    assert!(found.stdout.starts_with("commit abcdef1 2026-04-23 10:00:00\n  Add fancy feature\n\n"));
    assert!(found.stdout.contains("auth0001"));
    assert!(found.stderr.is_empty());
    let cited = blame_report(&commit(), vec![cand("cite0001", false, false, true, false, "2026-04-24T00:00:00Z")], false);
    assert_eq!(cited.code, 1);
    assert!(cited.stdout.is_empty());
    assert!(cited.stderr.contains("No session produced this commit"));
    assert!(cited.stderr.contains("cite0001"));
}

// ---------------------------------------------------------------------------
// commits
// ---------------------------------------------------------------------------

#[test]
fn commits_lists_authored_rows_by_default() {
    assert!(keep_row(&cand("a", true, false, false, false, "2026-04-24T00:00:00Z"), false));
    assert!(!keep_row(&cand("b", false, true, true, true, "2026-04-24T00:00:00Z"), false));
    assert!(keep_row(&cand("b", false, true, true, true, "2026-04-24T00:00:00Z"), true));
    assert!(!keep_row(&cand("c", false, false, false, false, "2026-04-24T00:00:00Z"), true));
}

#[test]
fn a_day_forward_and_back_is_the_same_day() {
    for (y, m, d) in [(2024, 2, 28), (2024, 2, 29), (2023, 2, 28), (2023, 12, 31), (2026, 4, 30), (2026, 1, 31)] {
        let (a, b, c) = add_days(y, m, d, 1);
        assert_eq!(add_days(a, b, c, -1), (y, m, d));
    }
    assert_eq!(add_days(2024, 2, 28, 1), (2024, 2, 29));
    assert_eq!(add_days(2023, 2, 28, 1), (2023, 3, 1));
    assert_eq!(add_days(2023, 12, 31, 1), (2024, 1, 1));
    assert_eq!(add_days(2026, 3, 1, -1), (2026, 2, 28));
    assert_eq!(day_shift(0, "2026-04-23T10:00:00Z").as_deref(), Some("2026-04-23"));
    assert_eq!(day_shift(1, "not a date"), None);
}

#[test]
fn days_forward_and_back_over_many_days() {
    for (y, m, d) in [(2024, 2, 29), (2023, 12, 31), (2026, 4, 30), (1999, 1, 1)] {
        for k in [0i64, 1, -1, 27, -59, 366, -366, 1000, -100_000] {
            let (a, b, c) = add_days(y, m, d, k);
            assert!((1..=12).contains(&b) && c >= 1 && c <= 31, "{a}-{b}-{c}");
            assert_eq!(add_days(a, b, c, -k), (y, m, d), "{y}-{m}-{d} by {k}");
        }
    }
    assert_eq!(add_days(2026, 1, 1, -1), (2025, 12, 31));
    assert_eq!(add_days(2025, 2, 28, 1), (2025, 3, 1));
    assert_eq!(add_days(2024, 1, 1, 366), (2025, 1, 1));
    // Far from the dates a transcript carries, the arithmetic still holds.
    assert_eq!(add_days(1_000_000_000_000_000, 12, 31, 1), (1_000_000_000_000_001, 1, 1));
}

#[test]
fn listed_sessions_need_a_prompt_unless_all() {
    let entries = || vec![entry("aaaa", Some("p")), entry("bbbb", None), entry("cccc", Some("q"))];
    let kept: Vec<String> = keep_entries(entries(), false).into_iter().map(|e| e.stem).collect();
    assert_eq!(kept, vec!["aaaa".to_string(), "cccc".to_string()]);
    assert_eq!(keep_entries(entries(), true).len(), 3);
}

#[test]
fn grep_exits_one_without_a_match() {
    assert_eq!(grep_exit_code(&vec![]), 1);
    let one = vec![SessionHits {
        id: "s".into(),
        project: "-p".into(),
        first_prompt: None,
        hits: vec![hit(HitKind::Match, Role::User, false, "x")],
    }];
    assert_eq!(grep_exit_code(&one), 0);
}

#[test]
fn scan_takes_any_timestamp_and_any_selector() {
    let m = Matcher::build("needle", false, false).unwrap();
    let events = vec![ev(Role::User, Some("2026-04-23T10:00:0é"), "NEEDLE")];
    let bounded = Opts {
        after: Some("2026-04-23T00:00:00".into()),
        ..grep_opts("needle")
    };
    assert_eq!(scan_events(&events, &bounded, &m, false).unwrap().len(), 1);
    let minimum = Opts {
        turns: Some(TurnSpec::Range(Some(i64::MIN), None)),
        ..grep_opts("needle")
    };
    assert_eq!(scan_events(&events, &minimum, &m, false).unwrap().len(), 1);
    let beyond = Opts {
        turns: Some(TurnSpec::Single(4)),
        ..grep_opts("needle")
    };
    assert!(matches!(scan_events(&events, &beyond, &m, false), Err(TurnSpecError::OutOfRange(4, 1))));
}
