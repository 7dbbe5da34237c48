use cch::timebounds::{in_range, parse_bound};
use std::time::{Duration, SystemTime, UNIX_EPOCH};

/// A time as the formatter takes it: whole seconds since the epoch, `None`
/// before it.
fn since_epoch(t: SystemTime) -> Option<u64> {
    t.duration_since(UNIX_EPOCH).ok().map(|d| d.as_secs())
}

#[test]
fn parse_bound_accepts_date_only() {
    assert_eq!(parse_bound("2026-04-23").unwrap(), "2026-04-23T00:00:00");
}

#[test]
fn parse_bound_pads_partial_time_and_strips_trailing_z() {
    assert_eq!(parse_bound("2026-04-23T17").unwrap(), "2026-04-23T17:00:00");
    assert_eq!(
        parse_bound("2026-04-23T17:30").unwrap(),
        "2026-04-23T17:30:00"
    );
    assert_eq!(
        parse_bound("2026-04-23T17:30:45Z").unwrap(),
        "2026-04-23T17:30:45"
    );
}

#[test]
fn parse_bound_rejects_garbage() {
    assert!(parse_bound("not-a-date").is_err());
    assert!(parse_bound("2026/04/23").is_err());
    assert!(parse_bound("2026-04-23T17:30:45:99").is_err());
}

#[test]
fn in_range_no_bounds_is_open() {
    assert!(in_range(None, None, None));
    assert!(in_range(Some("2026-04-23T10:00:00Z"), None, None));
}

#[test]
fn in_range_drops_untimestamped_when_bounded() {
    assert!(!in_range(None, Some("2026-04-23T00:00:00"), None));
    assert!(!in_range(None, None, Some("2026-04-23T00:00:00")));
}

#[test]
fn in_range_after_inclusive_before_exclusive() {
    let ts = "2026-04-23T17:00:00.123Z";
    let bound = "2026-04-23T17:00:00";
    assert!(in_range(Some(ts), Some(bound), None));
    assert!(!in_range(Some(ts), None, Some(bound)));
    assert!(in_range(Some(ts), None, Some("2026-04-23T17:00:01")));
    assert!(!in_range(Some(ts), Some("2026-04-23T17:00:01"), None));
}

#[test]
fn in_range_handles_fractional_seconds() {
    // Transcript uses `...17:00:00.123Z`; bound is `...17:00:00`. Only the
    // first 19 characters are compared, so they are equal.
    let ts = "2026-04-23T17:00:00.999Z";
    assert!(in_range(Some(ts), Some("2026-04-23T17:00:00"), None));
}

#[test]
fn format_systime_utc_epoch() {
    assert_eq!(cch::timebounds::format_systime_utc(since_epoch(UNIX_EPOCH)), "1970-01-01T00:00:00");
}

#[test]
fn format_systime_utc_known_instant() {
    // 2026-04-23T17:30:45 UTC = 1 776 965 445 seconds after the epoch.
    let t = UNIX_EPOCH + Duration::from_secs(1_776_965_445);
    assert_eq!(cch::timebounds::format_systime_utc(since_epoch(t)), "2026-04-23T17:30:45");
}

#[test]
fn format_systime_utc_month_boundary() {
    // 2024-02-29T00:00:00 UTC: leap day.
    let t = UNIX_EPOCH + Duration::from_secs(1_709_164_800);
    assert_eq!(cch::timebounds::format_systime_utc(since_epoch(t)), "2024-02-29T00:00:00");
}

#[test]
fn format_utc_before_epoch_counts_back() {
    // One second before the epoch is the last second of 1969.
    assert_eq!(cch::timebounds::format_utc(-1), "1969-12-31T23:59:59");
}

#[test]
fn bound_errors_quote_the_input() {
    let e = parse_bound("2026/04/23").unwrap_err();
    assert_eq!(e.message(), "invalid date: expected YYYY-MM-DD, got \"2026/04/23\"");
    let e = parse_bound("2026-04-23T1").unwrap_err();
    assert_eq!(
        e.message(),
        "invalid time: expected HH, HH:MM, or HH:MM:SS, got \"2026-04-23T1\""
    );
    let e = parse_bound("a\"b").unwrap_err();
    assert_eq!(e.message(), "invalid date: expected YYYY-MM-DD, got \"a\\\"b\"");
}

#[test]
fn parsed_bounds_are_nineteen_bytes() {
    for input in ["2026-04-23", "2026-04-23T05", "2026-04-23T05:06", "2026-04-23T05:06:07Z", " 2026-04-23Z "] {
        let b = parse_bound(input).unwrap();
        assert_eq!(b.len(), 19, "{input:?} gave {b:?}");
        assert_eq!(&b[10..11], "T");
    }
}

#[test]
fn format_systime_utc_clamps_before_the_epoch() {
    let t = UNIX_EPOCH - Duration::from_secs(3600);
    assert_eq!(cch::timebounds::format_systime_utc(since_epoch(t)), "1970-01-01T00:00:00");
}

#[test]
fn formatted_times_order_as_strings_and_parse_back() {
    let times = [0u64, 59, 86_399, 951_782_400, 1_709_164_800, 1_776_965_445, 4_102_444_800];
    let texts: Vec<String> = times.iter().map(|s| cch::timebounds::format_systime_utc(Some(*s))).collect();
    for w in texts.windows(2) {
        assert!(w[0] < w[1], "{} !< {}", w[0], w[1]);
    }
    for t in &texts {
        assert_eq!(&parse_bound(t).unwrap(), t);
    }
}

#[test]
fn bound_times_need_digits() {
    assert!(matches!(parse_bound("2026-04-23Txx"), Err(cch::timebounds::BoundError::InvalidTime(_))));
    assert!(matches!(parse_bound("2026-04-23T1a:00"), Err(cch::timebounds::BoundError::InvalidTime(_))));
    assert!(matches!(parse_bound("2026-04-23T12:34:5 Z"), Err(cch::timebounds::BoundError::InvalidTime(_))));
    let b = parse_bound(" 2026-04-23T09:15Z").unwrap();
    assert_eq!(b, "2026-04-23T09:15:00");
    assert_eq!(parse_bound(&b).unwrap(), b);
}

#[test]
fn parse_bound_answers_garbage_with_multibyte_characters() {
    assert_eq!(
        parse_bound("abcé-04-2"),
        Err(cch::timebounds::BoundError::InvalidDate("abcé-04-2".to_string()))
    );
    assert!(parse_bound("2026é04-23").is_err());
    assert!(parse_bound("éééé-04-23").is_err());
}

#[test]
fn formatted_times_keep_the_order_of_the_times() {
    let fmt = cch::timebounds::format_systime_utc;
    let times: Vec<Option<u64>> = vec![
        None,
        Some(0),
        Some(59),
        Some(86_399),
        Some(86_400),
        Some(951_782_400),
        Some(1_709_164_799),
        Some(1_709_164_800),
        Some(1_776_965_445),
        Some(253_402_300_799),
    ];
    for w in times.windows(2) {
        assert!(fmt(w[0]) <= fmt(w[1]), "{:?} then {:?}", w[0], w[1]);
    }
    assert!(fmt(Some(1_709_164_799)) < fmt(Some(1_709_164_800)));
    assert_eq!(fmt(None), fmt(Some(0)));
    assert_eq!(fmt(Some(253_402_300_799)), "9999-12-31T23:59:59");
}
