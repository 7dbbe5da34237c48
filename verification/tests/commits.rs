use cch::commands::commits::{add_days, day_shift};

#[test]
fn add_days_crosses_month_and_year_boundaries() {
    assert_eq!(add_days(2026, 4, 24, 1), (2026, 4, 25));
    assert_eq!(add_days(2026, 4, 30, 1), (2026, 5, 1));
    assert_eq!(add_days(2026, 1, 1, -1), (2025, 12, 31));
    assert_eq!(add_days(2024, 2, 28, 1), (2024, 2, 29)); // leap year
    assert_eq!(add_days(2025, 2, 28, 1), (2025, 3, 1));
}

#[test]
fn day_shift_handles_iso_timestamps() {
    assert_eq!(
        day_shift(-1, "2026-04-24T10:30:00.000Z").as_deref(),
        Some("2026-04-23")
    );
    assert_eq!(day_shift(-1, "garbage"), None);
}
