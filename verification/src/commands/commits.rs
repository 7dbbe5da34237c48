//! `cch commits <session>`: list the git commits a session produced.
//!
//! Inverse of `cch blame <sha>`: given a session, find the commits in its
//! repository that it authored, with the same authorship signal blame uses (a
//! `git commit` Bash tool_use whose argv carries the commit's subject or SHA).

use vstd::prelude::*;
use crate::text::{
    chars_of, owned, push_char, push_padded, push_signed_padded, push_str, signed_padded, split_char, split_on,
    zero_padded,
};
use crate::turns::{int_of, parse_i64_exact};
use crate::commands::blame::{
    evidence_tags, first_stamp, last_stamp, score, tags_text, Candidate, CandidateView, Commit,
};
use crate::transcript::opt_str_view;
use crate::term::{paint, painted, BOLD, DIM};
use crate::text::{byte_prefix, decimal, is_boundary, occurs_at_exec, replace_t, starts_with, t_to_space, take_chars};
use crate::transcript::{events_view, Event, EventView, Part, PartView};

verus! {

broadcast use vstd::string::group_string_axioms;

pub struct Opts {
    /// Session id or unique prefix.
    pub prefix: String,
    /// Include weaker matches (subject/sha/time only). Default is authored-only
    /// because the command answers "what did this session commit" rather than
    /// "what did it discuss".
    pub all: bool,
}

// ---------------------------------------------------------------------------
// Calendar arithmetic
// ---------------------------------------------------------------------------

/// Gregorian leap year.
pub open spec fn leap(y: int) -> bool {
    (y % 4 == 0 && y % 100 != 0) || y % 400 == 0
}

/// Days in month `m` of year `y`; months outside 1..=12 count 30.
pub open spec fn month_days(y: int, m: int) -> int {
    if m == 1 || m == 3 || m == 5 || m == 7 || m == 8 || m == 10 || m == 12 {
        31
    } else if m == 4 || m == 6 || m == 9 || m == 11 {
        30
    } else if m == 2 {
        if leap(y) {
            29
        } else {
            28
        }
    } else {
        30
    }
}

pub fn days_in_month(y: i64, m: i64) -> (r: i64)
    ensures
        r == month_days(y as int, m as int),
        28 <= r <= 31,
{
    if m == 1 || m == 3 || m == 5 || m == 7 || m == 8 || m == 10 || m == 12 {
        31
    } else if m == 4 || m == 6 || m == 9 || m == 11 {
        30
    } else if m == 2 {
        let leap = (y % 4 == 0 && y % 100 != 0) || y % 400 == 0;
        proof {
            assert(((y % 4 == 0) == ((y as int) % 4 == 0))) by (nonlinear_arith);
            assert(((y % 100 == 0) == ((y as int) % 100 == 0))) by (nonlinear_arith);
            assert(((y % 400 == 0) == ((y as int) % 400 == 0))) by (nonlinear_arith);
        }
        if leap {
            29
        } else {
            28
        }
    } else {
        30
    }
}

/// The month before `m` of year `y` (December of the year before January;
/// a month number below 1 wraps to December of the year before).
pub open spec fn prev_month(y: int, m: int) -> (int, int) {
    if m - 1 < 1 {
        (y - 1, 12)
    } else {
        (y, m - 1)
    }
}

/// The month after `m` of year `y` (January of the next year after December).
pub open spec fn next_month(y: int, m: int) -> (int, int) {
    if m + 1 > 12 {
        (y + 1, 1)
    } else {
        (y, m + 1)
    }
}

/// A day number below 1 borrows the days of the months before.
pub open spec fn borrow_days(y: int, m: int, d: int) -> (int, int, int)
    decreases (if d < 1 { 1 - d } else { 0 }),
{
    if d < 1 {
        let (y2, m2) = prev_month(y, m);
        borrow_days(y2, m2, d + month_days(y2, m2))
    } else {
        (y, m, d)
    }
}

/// A day number beyond its month carries into the months after.
pub open spec fn carry_days(y: int, m: int, d: int) -> (int, int, int)
    decreases (if d > 0 { d } else { 0 }),
{
    if d > month_days(y, m) {
        let (y2, m2) = next_month(y, m);
        carry_days(y2, m2, d - month_days(y, m))
    } else {
        (y, m, d)
    }
}

/// `(y, m, d)` moved by `delta` days.
pub open spec fn shifted(y: int, m: int, d: int, delta: int) -> (int, int, int) {
    let (a, b, c) = borrow_days(y, m, d + delta);
    carry_days(a, b, c)
}

/// A calendar date: a month of the year and a day of that month.
pub open spec fn valid_date(y: int, m: int, d: int) -> bool {
    1 <= m <= 12 && 1 <= d <= month_days(y, m)
}

proof fn lemma_borrow_days(y: int, m: int, d: int)
    requires
        1 <= m <= 12,
    ensures
        1 <= borrow_days(y, m, d).1 <= 12,
        borrow_days(y, m, d).2 >= 1,
        d < 1 ==> borrow_days(y, m, d).2 <= month_days(borrow_days(y, m, d).0, borrow_days(y, m, d).1),
        d >= 1 ==> borrow_days(y, m, d) == (y, m, d),
    decreases (if d < 1 { 1 - d } else { 0 }),
{
    if d < 1 {
        let (y2, m2) = prev_month(y, m);
        assert(month_days(y2, m2) >= 28);
        lemma_borrow_days(y2, m2, d + month_days(y2, m2));
    }
}

proof fn lemma_carry_days(y: int, m: int, d: int)
    requires
        1 <= m <= 12,
        d >= 1,
    ensures
        valid_date(carry_days(y, m, d).0, carry_days(y, m, d).1, carry_days(y, m, d).2),
        d <= month_days(y, m) ==> carry_days(y, m, d) == (y, m, d),
    decreases d,
{
    if d > month_days(y, m) {
        let (y2, m2) = next_month(y, m);
        lemma_carry_days(y2, m2, d - month_days(y, m));
    }
}

/// Moving a date by any number of days, forward or back, lands on a
/// calendar date; moving it by none leaves it where it is.
pub proof fn law_shift_valid(y: int, m: int, d: int, delta: int)
    requires
        1 <= m <= 12,
    ensures
        valid_date(shifted(y, m, d, delta).0, shifted(y, m, d, delta).1, shifted(y, m, d, delta).2),
        valid_date(y, m, d) ==> shifted(y, m, d, 0) == (y, m, d),
{
    lemma_borrow_days(y, m, d + delta);
    let (a, b, c) = borrow_days(y, m, d + delta);
    lemma_carry_days(a, b, c);
    lemma_borrow_days(y, m, d);
    if valid_date(y, m, d) {
        lemma_carry_days(y, m, d);
    }
}

/// The day after `(y, m, d)`.
pub open spec fn next_day(y: int, m: int, d: int) -> (int, int, int) {
    if d < month_days(y, m) {
        (y, m, d + 1)
    } else {
        let (y2, m2) = next_month(y, m);
        (y2, m2, 1)
    }
}

/// The day before `(y, m, d)`.
pub open spec fn prev_day(y: int, m: int, d: int) -> (int, int, int) {
    if d > 1 {
        (y, m, d - 1)
    } else {
        let (y2, m2) = prev_month(y, m);
        (y2, m2, month_days(y2, m2))
    }
}

proof fn lemma_next_prev(y: int, m: int, d: int)
    requires
        valid_date(y, m, d),
    ensures
        valid_date(next_day(y, m, d).0, next_day(y, m, d).1, next_day(y, m, d).2),
        valid_date(prev_day(y, m, d).0, prev_day(y, m, d).1, prev_day(y, m, d).2),
        prev_day(next_day(y, m, d).0, next_day(y, m, d).1, next_day(y, m, d).2) == (y, m, d),
        next_day(prev_day(y, m, d).0, prev_day(y, m, d).1, prev_day(y, m, d).2) == (y, m, d),
{
}

/// Carrying one more day lands on the next day.
proof fn lemma_carry_succ(y: int, m: int, e: int)
    requires
        1 <= m <= 12,
        e >= 1,
    ensures
        carry_days(y, m, e + 1) == next_day(carry_days(y, m, e).0, carry_days(y, m, e).1, carry_days(y, m, e).2),
    decreases e,
{
    let md = month_days(y, m);
    let (y2, m2) = next_month(y, m);
    if e + 1 <= md {
    } else if e == md {
        assert(carry_days(y2, m2, 1) == (y2, m2, 1int));
    } else {
        lemma_carry_succ(y2, m2, e - md);
        assert(e + 1 - md == (e - md) + 1);
    }
}

/// Borrowing one more day lands on the previous day.
proof fn lemma_borrow_pred(y: int, m: int, e: int)
    requires
        1 <= m <= 12,
        e <= month_days(y, m),
    ensures
        borrow_days(y, m, e - 1) == prev_day(borrow_days(y, m, e).0, borrow_days(y, m, e).1, borrow_days(y, m, e).2),
    decreases (if e < 1 { 1 - e } else { 0 }),
{
    let (y2, m2) = prev_month(y, m);
    let pd = month_days(y2, m2);
    if e >= 2 {
    } else if e == 1 {
        assert(borrow_days(y2, m2, pd) == (y2, m2, pd));
    } else {
        lemma_borrow_pred(y2, m2, e + pd);
        assert(e - 1 + pd == (e + pd) - 1);
    }
}

/// `j` days back from a date: `j` steps of [`prev_day`].
proof fn lemma_back_step(y: int, m: int, d: int, j: int)
    requires
        valid_date(y, m, d),
        j >= 0,
    ensures
        valid_date(borrow_days(y, m, d - j).0, borrow_days(y, m, d - j).1, borrow_days(y, m, d - j).2),
        j > 0 ==> borrow_days(y, m, d - j) == prev_day(
            borrow_days(y, m, d - (j - 1)).0,
            borrow_days(y, m, d - (j - 1)).1,
            borrow_days(y, m, d - (j - 1)).2,
        ),
{
    lemma_borrow_days(y, m, d - j);
    if j > 0 {
        lemma_borrow_pred(y, m, d - (j - 1));
        assert(d - (j - 1) - 1 == d - j);
    }
}

/// `j` days on from a date: `j` steps of [`next_day`].
proof fn lemma_forward_step(y: int, m: int, d: int, j: int)
    requires
        valid_date(y, m, d),
        j >= 0,
    ensures
        valid_date(carry_days(y, m, d + j).0, carry_days(y, m, d + j).1, carry_days(y, m, d + j).2),
        j > 0 ==> carry_days(y, m, d + j) == next_day(
            carry_days(y, m, d + (j - 1)).0,
            carry_days(y, m, d + (j - 1)).1,
            carry_days(y, m, d + (j - 1)).2,
        ),
{
    lemma_carry_days(y, m, d + j);
    if j > 0 {
        lemma_carry_succ(y, m, d + (j - 1));
        assert(d + (j - 1) + 1 == d + j);
    }
}

/// Going `j + 1` days back from the day after `z` is going `j` days back from `z`.
proof fn lemma_back_from_next(y: int, m: int, d: int, j: int)
    requires
        valid_date(y, m, d),
        j >= 0,
    ensures
        ({
            let n = next_day(y, m, d);
            borrow_days(n.0, n.1, n.2 - (j + 1)) == borrow_days(y, m, d - j)
        }),
    decreases j,
{
    let n = next_day(y, m, d);
    lemma_next_prev(y, m, d);
    lemma_back_step(n.0, n.1, n.2, j + 1);
    lemma_back_step(n.0, n.1, n.2, 0);
    lemma_borrow_days(y, m, d);
    assert(n.2 - 0 == n.2);
    assert(d - 0 == d);
    if j > 0 {
        lemma_back_from_next(y, m, d, j - 1);
        lemma_back_step(y, m, d, j);
        assert(n.2 - ((j + 1) - 1) == n.2 - j);
    }
}

/// Going `j + 1` days on from the day before `z` is going `j` days on from `z`.
proof fn lemma_forward_from_prev(y: int, m: int, d: int, j: int)
    requires
        valid_date(y, m, d),
        j >= 0,
    ensures
        ({
            let p = prev_day(y, m, d);
            carry_days(p.0, p.1, p.2 + (j + 1)) == carry_days(y, m, d + j)
        }),
    decreases j,
{
    let p = prev_day(y, m, d);
    lemma_next_prev(y, m, d);
    lemma_forward_step(p.0, p.1, p.2, j + 1);
    lemma_forward_step(p.0, p.1, p.2, 0);
    lemma_carry_days(y, m, d);
    assert(p.2 + 0 == p.2);
    assert(d + 0 == d);
    if j > 0 {
        lemma_forward_from_prev(y, m, d, j - 1);
        lemma_forward_step(y, m, d, j);
        assert(p.2 + ((j + 1) - 1) == p.2 + j);
    }
}

/// `k` days on, then `k` days back, from a date.
proof fn lemma_on_then_back(y: int, m: int, d: int, k: int)
    requires
        valid_date(y, m, d),
        k >= 0,
    ensures
        ({
            let x = carry_days(y, m, d + k);
            borrow_days(x.0, x.1, x.2 - k) == (y, m, d)
        }),
    decreases k,
{
    lemma_forward_step(y, m, d, k);
    if k == 0 {
        lemma_carry_days(y, m, d);
        lemma_borrow_days(y, m, d);
    } else {
        let w = carry_days(y, m, d + (k - 1));
        lemma_forward_step(y, m, d, k - 1);
        lemma_back_from_next(w.0, w.1, w.2, k - 1);
        lemma_on_then_back(y, m, d, k - 1);
    }
}

/// `k` days back, then `k` days on, from a date.
proof fn lemma_back_then_on(y: int, m: int, d: int, k: int)
    requires
        valid_date(y, m, d),
        k >= 0,
    ensures
        ({
            let x = borrow_days(y, m, d - k);
            carry_days(x.0, x.1, x.2 + k) == (y, m, d)
        }),
    decreases k,
{
    lemma_back_step(y, m, d, k);
    if k == 0 {
        lemma_carry_days(y, m, d);
        lemma_borrow_days(y, m, d);
    } else {
        let w = borrow_days(y, m, d - (k - 1));
        lemma_back_step(y, m, d, k - 1);
        lemma_forward_from_prev(w.0, w.1, w.2, k - 1);
        lemma_back_then_on(y, m, d, k - 1);
    }
}

/// `k` days on from a date, and `k` days back, is that date again, for any
/// whole number of days `k`, forward or back; every date reached is a
/// calendar date.
pub proof fn law_shift_round_trip(y: int, m: int, d: int, k: int)
    requires
        valid_date(y, m, d),
    ensures
        valid_date(shifted(y, m, d, k).0, shifted(y, m, d, k).1, shifted(y, m, d, k).2),
        shifted(shifted(y, m, d, k).0, shifted(y, m, d, k).1, shifted(y, m, d, k).2, -k) == (y, m, d),
{
    law_shift_valid(y, m, d, k);
    if k >= 0 {
        lemma_borrow_days(y, m, d + k);
        let x = carry_days(y, m, d + k);
        assert(shifted(y, m, d, k) == x);
        lemma_forward_step(y, m, d, k);
        lemma_on_then_back(y, m, d, k);
        let b = borrow_days(x.0, x.1, x.2 - k);
        assert(b == (y, m, d));
        lemma_carry_days(y, m, d);
        assert(shifted(x.0, x.1, x.2, -k) == carry_days(b.0, b.1, b.2));
    } else {
        let j = -k;
        let x = borrow_days(y, m, d - j);
        lemma_back_step(y, m, d, j);
        lemma_carry_days(x.0, x.1, x.2);
        assert(shifted(y, m, d, k) == x);
        lemma_back_then_on(y, m, d, j);
        lemma_borrow_days(x.0, x.1, x.2 + j);
        assert(shifted(x.0, x.1, x.2, -k) == carry_days(x.0, x.1, x.2 + j));
    }
}

/// Bound on a value that keeps day arithmetic on it far from the ends of `i64`.
pub open spec fn small(n: int) -> bool {
    -0x100_0000_0000 <= n <= 0x100_0000_0000
}

/// Every step of [`add_days`] stays within `i64`: the day sum, the month
/// stepped down (borrowing) or up (carrying), and the years reached.
pub open spec fn shift_fits(y: int, m: int, d: int, delta: int) -> bool {
    let e = d + delta;
    &&& i64::MIN <= e <= i64::MAX
    &&& (e < 1 ==> m > i64::MIN)
    &&& (e >= 1 && e > month_days(y, m) ==> m < i64::MAX)
    &&& borrow_days(y, m, e).0 >= i64::MIN
    &&& shifted(y, m, d, delta).0 <= i64::MAX
}

/// Borrowing only goes back in years; a step out of January goes back one.
proof fn lemma_borrow_year(y: int, m: int, d: int)
    ensures
        borrow_days(y, m, d).0 <= y,
        d < 1 && m - 1 < 1 ==> borrow_days(y, m, d).0 <= y - 1,
        d < 1 ==> borrow_days(y, m, d).0 >= y - (1 - d),
        borrow_days(y, m, d).1 >= (if m < 1 { m } else { 1 }),
        d < 1 ==> borrow_days(y, m, d).1 >= 1,
        d < 1 ==> borrow_days(y, m, d).2 >= 1,
        borrow_days(y, m, d).2 <= (if d < 1 { 31 } else { d }),
        d >= 1 ==> borrow_days(y, m, d) == (y, m, d),
    decreases (if d < 1 { 1 - d } else { 0 }),
{
    if d < 1 {
        let (y2, m2) = prev_month(y, m);
        assert(28 <= month_days(y2, m2) <= 31);
        lemma_borrow_year(y2, m2, d + month_days(y2, m2));
    }
}

/// Carrying only goes forward in years; a step out of December goes forward one.
proof fn lemma_carry_year(y: int, m: int, d: int)
    requires
        d >= 1,
    ensures
        carry_days(y, m, d).0 >= y,
        d > month_days(y, m) && m + 1 > 12 ==> carry_days(y, m, d).0 >= y + 1,
        carry_days(y, m, d).0 <= y + d,
        carry_days(y, m, d).1 >= (if m < 1 { m } else { 1 }),
        carry_days(y, m, d).2 >= 1,
    decreases d,
{
    if d > month_days(y, m) {
        let (y2, m2) = next_month(y, m);
        assert(28 <= month_days(y, m) <= 31);
        lemma_carry_year(y2, m2, d - month_days(y, m));
    }
}

/// Small inputs keep every step of [`add_days`] within `i64`, and its result
/// far from the ends of `i64`.
proof fn lemma_small_fits(y: int, m: int, d: int, delta: int)
    requires
        small(y),
        small(m),
        small(d),
        small(delta),
    ensures
        shift_fits(y, m, d, delta),
        shifted(y, m, d, delta).0 > i64::MIN,
        shifted(y, m, d, delta).1 > i64::MIN,
        shifted(y, m, d, delta).2 >= 1,
{
    let e = d + delta;
    lemma_borrow_year(y, m, e);
    let (a, b, c) = borrow_days(y, m, e);
    assert(c >= 1) by {
        if e >= 1 {
            assert(borrow_days(y, m, e) == (y, m, e));
        }
    }
    lemma_carry_year(a, b, c);
}

/// Add `delta` days to (y, m, d). Handles ±a few days across month/year
/// boundaries: all the log-window padding needs.
pub fn add_days(y: i64, m: i64, d: i64, delta: i64) -> (r: (i64, i64, i64))
    requires
        shift_fits(y as int, m as int, d as int, delta as int),
    ensures
        (r.0 as int, r.1 as int, r.2 as int) == shifted(y as int, m as int, d as int, delta as int),
        1 <= r.2,
{
    let ghost y0 = y as int;
    let ghost m0 = m as int;
    let mut y = y;
    let mut m = m;
    let mut d = d + delta;
    let ghost e = d as int;
    let ghost target = borrow_days(y as int, m as int, d as int);
    let ghost mut stepped = false;
    while d < 1
        invariant
            borrow_days(y as int, m as int, d as int) == target,
            target.0 >= i64::MIN,
            d < 1 ==> m > i64::MIN,
            stepped ==> m < i64::MAX,
            !stepped ==> y == y0 && m == m0 && d == e,
        decreases (if d < 1 { 1 - d } else { 0 }),
    {
        proof {
            lemma_borrow_year(y as int, m as int, d as int);
        }
        m = m - 1;
        if m < 1 {
            m = 12;
            y = y - 1;
        }
        d = d + days_in_month(y, m);
        proof {
            stepped = true;
        }
    }
    proof {
        lemma_borrow_year(y as int, m as int, d as int);
        assert((y as int, m as int, d as int) == target);
    }
    let ghost target2 = carry_days(y as int, m as int, d as int);
    assert(target2 == shifted(y0, m0, e - delta, delta as int));
    loop
        invariant
            carry_days(y as int, m as int, d as int) == target2,
            target2.0 <= i64::MAX,
            1 <= d,
            d > month_days(y as int, m as int) ==> m < i64::MAX,
        ensures
            (y as int, m as int, d as int) == target2,
            1 <= d,
        decreases d,
    {
        let dim = days_in_month(y, m);
        if d <= dim {
            break;
        }
        proof {
            lemma_carry_year(y as int, m as int, d as int);
        }
        d = d - dim;
        m = m + 1;
        if m > 12 {
            m = 1;
            y = y + 1;
        }
    }
    (y, m, d)
}

/// The date `delta` days from the `YYYY-MM-DD` at the start of `ts`, as
/// `YYYY-MM-DD`; `None` when the first ten characters do not hold three
/// `-`-separated integers.
pub open spec fn day_shifted(delta: int, ts: Seq<char>) -> Option<Seq<char>> {
    let head = ts.take(if ts.len() < 10 { ts.len() as int } else { 10 });
    let parts = split_on(head, '-');
    if parts.len() >= 3 && int_of(parts[0]) is Some && int_of(parts[1]) is Some && int_of(parts[2]) is Some {
        let (y, m, d) = shifted(int_of(parts[0])->0, int_of(parts[1])->0, int_of(parts[2])->0, delta);
        Some(signed_padded(y, 4) + seq!['-'] + signed_padded(m, 2) + seq!['-'] + signed_padded(d, 2))
    } else {
        None
    }
}

/// `10^n`.
pub open spec fn pow10(n: nat) -> int
    decreases n,
{
    if n == 0 {
        1
    } else {
        10 * pow10((n - 1) as nat)
    }
}

/// Integers written in at most ten characters are small.
proof fn lemma_short_int_small(s: Seq<char>)
    requires
        s.len() <= 10,
        int_of(s) is Some,
    ensures
        small(int_of(s)->0),
{
    let r = if s[0] == '-' || s[0] == '+' {
        s.drop_first()
    } else {
        s
    };
    lemma_digits_bound(r);
    lemma_pow10_le(r.len());
    reveal_with_fuel(pow10, 11);
}

proof fn lemma_pow10_le(n: nat)
    requires
        n <= 10,
    ensures
        pow10(n) <= pow10(10),
    decreases 10 - n,
{
    if n < 10 {
        lemma_pow10_le(n + 1);
        lemma_pow10_pos(n);
        assert(pow10(n + 1) == 10 * pow10(n));
    }
}

proof fn lemma_pow10_pos(n: nat)
    ensures
        pow10(n) >= 1,
    decreases n,
{
    if n > 0 {
        lemma_pow10_pos((n - 1) as nat);
    }
}

proof fn lemma_digits_bound(s: Seq<char>)
    requires
        forall|i: int| 0 <= i < s.len() ==> crate::text::is_digit(#[trigger] s[i]),
    ensures
        0 <= crate::turns::digits_value(s) < pow10(s.len()),
    decreases s.len(),
{
    if s.len() > 0 {
        lemma_digits_bound(s.drop_last());
        assert(pow10(s.len()) == pow10((s.len() - 1) as nat) * 10);
    }
}

/// Shifts a `YYYY-MM-DD…` timestamp by whole days, done arithmetically so no
/// date library is needed for ±1-day bounds. `None` when it does not parse.
pub fn day_shift(delta: i64, ts: &str) -> (r: Option<String>)
    requires
        small(delta as int),
    ensures
        match r {
            Some(s) => day_shifted(delta as int, ts@) == Some(s@),
            None => day_shifted(delta as int, ts@) is None,
        },
{
    let v = chars_of(ts);
    let n: usize = if v.len() < 10 {
        v.len()
    } else {
        10
    };
    let head = crate::text::string_of_range(&v, 0, n);
    assert(head@ =~= ts@.take(n as int));
    let parts = split_char(head.as_str(), '-');
    let ghost pv = parts@.map_values(|x: String| x@);
    if parts.len() < 3 {
        return None;
    }
    proof {
        assert(pv[0] == parts@[0]@);
        assert(pv[1] == parts@[1]@);
        assert(pv[2] == parts@[2]@);
        crate::text::lemma_split_piece_len(head@, '-', 0);
        crate::text::lemma_split_piece_len(head@, '-', 1);
        crate::text::lemma_split_piece_len(head@, '-', 2);
    }
    let y = match parse_i64_exact(parts[0].as_str()) {
        Some(x) => x,
        None => {
            return None;
        },
    };
    let m = match parse_i64_exact(parts[1].as_str()) {
        Some(x) => x,
        None => {
            return None;
        },
    };
    let d = match parse_i64_exact(parts[2].as_str()) {
        Some(x) => x,
        None => {
            return None;
        },
    };
    proof {
        lemma_short_int_small(pv[0]);
        lemma_short_int_small(pv[1]);
        lemma_short_int_small(pv[2]);
        lemma_small_fits(y as int, m as int, d as int, delta as int);
    }
    let (ny, nm, nd) = add_days(y, m, d, delta);
    let mut out = String::new();
    push_signed_padded(&mut out, ny, 4);
    push_char(&mut out, '-');
    push_signed_padded(&mut out, nm, 2);
    push_char(&mut out, '-');
    push_signed_padded(&mut out, nd, 2);
    Some(out)
}

// ---------------------------------------------------------------------------
// The session and its repository
// ---------------------------------------------------------------------------

/// The session's short id: the first 8 bytes of its id, or nothing when
/// they do not end between characters (`get(..8)`, then empty).
pub open spec fn short_id_text(stem: Seq<char>) -> Seq<char> {
    if is_boundary(stem, 8) {
        byte_prefix(stem, 8)
    } else {
        Seq::empty()
    }
}

pub fn short_id(stem: &str) -> (r: String)
    ensures
        r@ == short_id_text(stem@),
{
    match crate::text::get_prefix(stem, 8) {
        Some(t) => t,
        None => String::new(),
    }
}

/// The absolute `file_path`s of the session's tool calls, in order: where
/// its repository is looked for (the first one inside a git work tree).
pub open spec fn absolute_paths(evs: Seq<EventView>) -> Seq<Seq<char>>
    decreases evs.len(),
{
    if evs.len() == 0 {
        Seq::empty()
    } else {
        absolute_paths(evs.drop_last()) + part_paths(evs.last().parts)
    }
}

pub open spec fn part_paths(parts: Seq<PartView>) -> Seq<Seq<char>>
    decreases parts.len(),
{
    if parts.len() == 0 {
        Seq::empty()
    } else {
        let rest = part_paths(parts.drop_last());
        match parts.last() {
            PartView::ToolUse { file_path: Some(fp), .. } => if starts_with(fp, "/"@) {
                rest.push(fp)
            } else {
                rest
            },
            _ => rest,
        }
    }
}

pub fn file_paths(events: &Vec<Event>) -> (r: Vec<String>)
    ensures
        r@.map_values(|x: String| x@) == absolute_paths(events_view(events@)),
{
    let ghost evs = events_view(events@);
    let mut out: Vec<String> = Vec::new();
    let slash = chars_of("/");
    let mut i: usize = 0;
    while i < events.len()
        invariant
            evs == events_view(events@),
            slash@ == "/"@,
            i <= events@.len(),
            out@.map_values(|x: String| x@) == absolute_paths(evs.take(i as int)),
        decreases events@.len() - i,
    {
        let e = &events[i];
        proof {
            assert(evs.take(i + 1).drop_last() =~= evs.take(i as int));
            assert(evs.take(i + 1).last() == e@);
        }
        let ghost base = out@.map_values(|x: String| x@);
        let ghost pv = e@.parts;
        let mut j: usize = 0;
        while j < e.parts.len()
            invariant
                pv == e@.parts,
                slash@ == "/"@,
                j <= pv.len(),
                out@.map_values(|x: String| x@) == base + part_paths(pv.take(j as int)),
            decreases pv.len() - j,
        {
            proof {
                assert(pv.take(j + 1).drop_last() =~= pv.take(j as int));
                assert(pv.take(j + 1).last() == e.parts@[j as int]@);
            }
            if let Part::ToolUse { file_path: Some(fp), .. } = &e.parts[j] {
                let fv = chars_of(fp.as_str());
                if occurs_at_exec(&fv, &slash, 0) {
                    let ghost before = out@;
                    out.push(owned(fp.as_str()));
                    assert(out@.map_values(|x: String| x@) =~= before.map_values(|x: String| x@).push(fp@));
                }
            }
            j = j + 1;
        }
        proof {
            assert(pv.take(j as int) =~= pv);
        }
        i = i + 1;
    }
    assert(evs.take(i as int) =~= evs);
    out
}

/// The `git log` arguments for the session's window, padded by a day on each
/// side (edges such as amends and cherry-picks stay in).
pub open spec fn log_args(first: Option<Seq<char>>, last: Option<Seq<char>>) -> Seq<Seq<char>> {
    seq!["log"@, "--format=%H"@] + (match first {
        Some(f) => match day_shifted(-1, f) {
            Some(d) => seq!["--since="@ + d],
            None => Seq::empty(),
        },
        None => Seq::empty(),
    }) + (match last {
        Some(l) => match day_shifted(1, l) {
            Some(d) => seq!["--until="@ + d],
            None => Seq::empty(),
        },
        None => Seq::empty(),
    })
}

pub fn git_log_args(first: Option<&str>, last: Option<&str>) -> (r: Vec<String>)
    ensures
        r@.map_values(|x: String| x@) == log_args(crate::timebounds::opt_view(first), crate::timebounds::opt_view(last)),
{
    let mut args: Vec<String> = Vec::new();
    args.push(owned("log"));
    args.push(owned("--format=%H"));
    let ghost base = args@.map_values(|x: String| x@);
    assert(base =~= seq!["log"@, "--format=%H"@]);
    if let Some(f) = first {
        if let Some(d) = day_shift(-1, f) {
            let mut a = owned("--since=");
            push_str(&mut a, d.as_str());
            args.push(a);
        }
    }
    let ghost mid = args@.map_values(|x: String| x@);
    assert(mid =~= base + (match crate::timebounds::opt_view(first) {
        Some(f) => match day_shifted(-1, f) {
            Some(d) => seq!["--since="@ + d],
            None => Seq::empty(),
        },
        None => Seq::empty(),
    }));
    if let Some(l) = last {
        if let Some(d) = day_shift(1, l) {
            let mut a = owned("--until=");
            push_str(&mut a, d.as_str());
            args.push(a);
        }
    }
    assert(args@.map_values(|x: String| x@) =~= log_args(
        crate::timebounds::opt_view(first),
        crate::timebounds::opt_view(last),
    ));
    args
}

/// A commit is listed: it scores, and unless `--all` the session authored it.
pub open spec fn listed(c: CandidateView, all: bool) -> bool {
    score(c) > 0 && (all || c.authored_commit)
}

/// `cch commits` lists, by default, exactly the commits that `cch blame`
/// would credit to the session as its author.
pub proof fn law_default_rows_are_authored(c: CandidateView)
    ensures
        listed(c, false) <==> c.authored_commit,
        listed(c, true) <==> crate::commands::blame::score(c) > 0,
{
}

pub fn keep_row(c: &Candidate, all: bool) -> (r: bool)
    ensures
        r == listed(c@, all),
{
    c.score() > 0 && (all || c.authored_commit)
}

/// The tags of a listed commit: as `cch blame` shows them.
pub fn tag_line(c: &Candidate, color: bool) -> (r: String)
    ensures
        r@ == tags_text(c@, color),
{
    evidence_tags(c, color)
}

/// The listing: a header with the session, the number of commits and the
/// repository, then one row per commit (short SHA, time, tags, subject).
pub open spec fn rows_text(id: Seq<char>, repo: Seq<char>, rows: Seq<(Commit, CandidateView)>, color: bool) -> Seq<char> {
    painted(DIM@, "session"@, color) + " "@ + painted(BOLD@, id, color) + "  "@ + painted(
        DIM@,
        decimal(rows.len()) + " commit(s)"@,
        color,
    ) + "  "@ + painted(DIM@, repo, color) + "\n"@ + row_lines(rows, color)
}

pub open spec fn row_lines(rows: Seq<(Commit, CandidateView)>, color: bool) -> Seq<char>
    decreases rows.len(),
{
    if rows.len() == 0 {
        Seq::empty()
    } else {
        row_lines(rows.drop_last(), color) + row_line(rows.last().0, rows.last().1, color)
    }
}

/// One row: short SHA, commit time, tags, subject.
pub open spec fn row_line(c: Commit, k: CandidateView, color: bool) -> Seq<char> {
    let time = t_to_space(c.time@);
    "  "@ + painted(DIM@, c.short_sha@, color) + "  "@ + painted(
        DIM@,
        time.take(if time.len() < 19 { time.len() as int } else { 19 }),
        color,
    ) + "  "@ + tags_text(k, color) + "  "@ + c.subject@ + "\n"@
}

fn push_row(out: &mut String, commit: &Commit, cand: &Candidate, color: bool)
    ensures
        final(out)@ == old(out)@ + row_line(*commit, cand@, color),
{
    let t = replace_t(commit.time.as_str());
    let time = take_chars(t.as_str(), 19);
    push_str(out, "  ");
    let d = paint(DIM, commit.short_sha.as_str(), color);
    push_str(out, d.as_str());
    push_str(out, "  ");
    let e = paint(DIM, time.as_str(), color);
    push_str(out, e.as_str());
    push_str(out, "  ");
    let f = tag_line(cand, color);
    push_str(out, f.as_str());
    push_str(out, "  ");
    push_str(out, commit.subject.as_str());
    push_str(out, "\n");
}

pub open spec fn rows_view(rows: Seq<(Commit, Candidate)>) -> Seq<(Commit, CandidateView)> {
    rows.map_values(|r: (Commit, Candidate)| (r.0, r.1@))
}

pub fn print_rows(id: &str, repo: &str, rows: &Vec<(Commit, Candidate)>, color: bool) -> (r: String)
    ensures
        r@ == rows_text(id@, repo@, rows_view(rows@), color),
{
    let ghost rv = rows_view(rows@);
    let mut out = paint(DIM, "session", color);
    push_str(&mut out, " ");
    let a = paint(BOLD, id, color);
    push_str(&mut out, a.as_str());
    push_str(&mut out, "  ");
    let mut count = String::new();
    crate::text::push_decimal(&mut count, rows.len() as u64);
    push_str(&mut count, " commit(s)");
    let b = paint(DIM, count.as_str(), color);
    push_str(&mut out, b.as_str());
    push_str(&mut out, "  ");
    let c = paint(DIM, repo, color);
    push_str(&mut out, c.as_str());
    push_str(&mut out, "\n");
    let ghost head = out@;
    let mut i: usize = 0;
    while i < rows.len()
        invariant
            rv == rows_view(rows@),
            i <= rows@.len(),
            out@ == head + row_lines(rv.take(i as int), color),
        decreases rows@.len() - i,
    {
        proof {
            assert(rv.take(i + 1).drop_last() =~= rv.take(i as int));
            assert(rv.take(i + 1).last() == (rows@[i as int].0, rows@[i as int].1@));
        }
        let (commit, cand) = &rows[i];
        push_row(&mut out, commit, cand, color);
        i = i + 1;
    }
    assert(rv.take(i as int) =~= rv);
    out
}

/// The first and last timestamps of the session: its activity window.
pub fn session_window(events: &Vec<Event>) -> (r: (Option<String>, Option<String>))
    ensures
        opt_str_view(r.0) == first_stamp(events_view(events@)),
        opt_str_view(r.1) == last_stamp(events_view(events@)),
{
    let ghost evs = events_view(events@);
    let mut first: Option<String> = None;
    let mut last: Option<String> = None;
    let mut i: usize = 0;
    while i < events.len()
        invariant
            evs == events_view(events@),
            i <= events@.len(),
            opt_str_view(first) == first_stamp(evs.take(i as int)),
            opt_str_view(last) == last_stamp(evs.take(i as int)),
        decreases events@.len() - i,
    {
        let e = &events[i];
        proof {
            assert(evs[i as int] == e@);
            crate::commands::blame::lemma_first_stamp_step(evs, i as int);
            assert(evs.take(i + 1).drop_last() =~= evs.take(i as int));
        }
        if let Some(ts) = &e.timestamp {
            if first.is_none() {
                first = Some(owned(ts.as_str()));
            }
            last = Some(owned(ts.as_str()));
        }
        i = i + 1;
    }
    assert(evs.take(i as int) =~= evs);
    (first, last)
}

// ---------------------------------------------------------------------------
// The log window brackets the session
// ---------------------------------------------------------------------------

/// A date written `YYYY-MM-DD`.
pub open spec fn date_text(y: int, m: int, d: int) -> Seq<char> {
    zero_padded(y as nat, 4) + seq!['-'] + zero_padded(m as nat, 2) + seq!['-'] + zero_padded(d as nat, 2)
}

/// The first `c` of `s` is at `k`.
proof fn lemma_index_at(s: Seq<char>, c: char, k: int)
    requires
        0 <= k < s.len(),
        s[k] == c,
        forall|i: int| 0 <= i < k ==> s[i] != c,
    ensures
        crate::text::index_or_len(s, c) == k,
    decreases k,
{
    if k > 0 {
        lemma_index_at(s.drop_first(), c, k - 1);
    }
}

/// Without a `c`, the index runs to the end.
proof fn lemma_index_none(s: Seq<char>, c: char)
    requires
        forall|i: int| 0 <= i < s.len() ==> s[i] != c,
    ensures
        crate::text::index_or_len(s, c) == s.len(),
    decreases s.len(),
{
    if s.len() > 0 {
        lemma_index_none(s.drop_first(), c);
    }
}

/// A zero-padded number of two or four digits reads back as itself.
proof fn lemma_int_of_padded(n: nat, w: nat)
    requires
        (w == 2 && n < 100) || (w == 4 && n < 10000),
    ensures
        int_of(zero_padded(n, w)) == Some(n as int),
        zero_padded(n, w).len() == w,
        forall|i: int| 0 <= i < w ==> crate::text::is_digit(#[trigger] zero_padded(n, w)[i]),
{
    let z = zero_padded(n, w);
    crate::timebounds::lemma_digit_code(n);
    crate::timebounds::lemma_digit_code(n / 10);
    crate::timebounds::lemma_digit_code(n / 100);
    crate::timebounds::lemma_digit_code(n / 1000);
    reveal_with_fuel(crate::turns::digits_value, 5);
    if w == 2 {
        crate::timebounds::lemma_pad2(n);
        assert(z.drop_last() =~= seq![z[0]]);
        assert(z.drop_last().drop_last() =~= Seq::<char>::empty());
        assert(crate::turns::digits_value(z) == 10 * ((n / 10) % 10) + n % 10);
    } else {
        crate::timebounds::lemma_pad4(n);
        assert(z.drop_last() =~= seq![z[0], z[1], z[2]]);
        assert(z.drop_last().drop_last() =~= seq![z[0], z[1]]);
        assert(z.drop_last().drop_last().drop_last() =~= seq![z[0]]);
        assert(z.drop_last().drop_last().drop_last().drop_last() =~= Seq::<char>::empty());
        assert((n / 10) / 10 == n / 100);
        assert((n / 100) / 10 == n / 1000);
        assert(crate::turns::digits_value(z) == 1000 * (n / 1000) + 100 * ((n / 100) % 10) + 10 * ((n / 10)
            % 10) + n % 10);
    }
}

/// A written date, with anything after it, shifts as the date does.
proof fn lemma_day_shifted_date(y: int, m: int, d: int, rest: Seq<char>, k: int)
    requires
        0 <= y < 10000,
        1 <= m <= 12,
        1 <= d < 100,
    ensures
        day_shifted(k, date_text(y, m, d) + rest) == Some(
            signed_padded(shifted(y, m, d, k).0, 4) + seq!['-'] + signed_padded(shifted(y, m, d, k).1, 2)
                + seq!['-'] + signed_padded(shifted(y, m, d, k).2, 2),
        ),
{
    let a = zero_padded(y as nat, 4);
    let b = zero_padded(m as nat, 2);
    let c = zero_padded(d as nat, 2);
    lemma_int_of_padded(y as nat, 4);
    lemma_int_of_padded(m as nat, 2);
    lemma_int_of_padded(d as nat, 2);
    let t = date_text(y, m, d);
    assert(t.len() == 10);
    let ts = t + rest;
    assert(ts.take(10) =~= t);
    let t2 = b + seq!['-'] + c;
    assert(t.skip(5) =~= t2);
    assert(t.take(4) =~= a);
    assert(t2.skip(3) =~= c);
    assert(t2.take(2) =~= b);
    assert forall|i: int| 0 <= i < 4 implies t[i] != '-' by {
        assert(t[i] == a[i]);
        assert(crate::text::is_digit(a[i]));
    }
    lemma_index_at(t, '-', 4);
    assert forall|i: int| 0 <= i < 2 implies t2[i] != '-' by {
        assert(t2[i] == b[i]);
        assert(crate::text::is_digit(b[i]));
    }
    lemma_index_at(t2, '-', 2);
    assert forall|i: int| 0 <= i < c.len() implies c[i] != '-' by {
        assert(crate::text::is_digit(c[i]));
    }
    lemma_index_none(c, '-');
    assert(split_on(c, '-') == seq![c]);
    assert(split_on(t2, '-') =~= seq![b, c]);
    assert(split_on(t, '-') =~= seq![a, b, c]);
}

/// One day back is the day before; one day on is the day after.
proof fn lemma_shift_one(y: int, m: int, d: int)
    requires
        valid_date(y, m, d),
    ensures
        shifted(y, m, d, -1) == prev_day(y, m, d),
        shifted(y, m, d, 1) == next_day(y, m, d),
{
    lemma_back_step(y, m, d, 1);
    lemma_borrow_days(y, m, d);
    lemma_carry_days(y, m, d);
    let p = prev_day(y, m, d);
    lemma_carry_days(p.0, p.1, p.2);
    lemma_borrow_days(y, m, d + 1);
    lemma_forward_step(y, m, d, 1);
}

/// The `git log` window of a session runs from the day before the date of its
/// first timestamp to the day after the date of its last, so every commit of
/// the session's activity lies inside it. Timestamps start with `YYYY-MM-DD`
/// (a calendar date, years 1 to 9998 so the padded dates keep four digits),
/// whatever follows.
pub proof fn law_log_window_brackets_session(
    y1: int,
    m1: int,
    d1: int,
    rest1: Seq<char>,
    y2: int,
    m2: int,
    d2: int,
    rest2: Seq<char>,
)
    requires
        valid_date(y1, m1, d1),
        valid_date(y2, m2, d2),
        1 <= y1 <= 9998,
        1 <= y2 <= 9998,
    ensures
        log_args(Some(date_text(y1, m1, d1) + rest1), Some(date_text(y2, m2, d2) + rest2)) == seq![
            "log"@,
            "--format=%H"@,
            "--since="@ + date_text(prev_day(y1, m1, d1).0, prev_day(y1, m1, d1).1, prev_day(y1, m1, d1).2),
            "--until="@ + date_text(next_day(y2, m2, d2).0, next_day(y2, m2, d2).1, next_day(y2, m2, d2).2),
        ],
{
    lemma_shift_one(y1, m1, d1);
    lemma_shift_one(y2, m2, d2);
    lemma_day_shifted_date(y1, m1, d1, rest1, -1);
    lemma_day_shifted_date(y2, m2, d2, rest2, 1);
    let p = prev_day(y1, m1, d1);
    let n = next_day(y2, m2, d2);
    assert(p.0 >= 0 && p.1 >= 1 && p.2 >= 1);
    assert(n.0 >= 0 && n.1 >= 1 && n.2 >= 1);
    assert(signed_padded(p.0, 4) == zero_padded(p.0 as nat, 4));
    assert(signed_padded(n.0, 4) == zero_padded(n.0 as nat, 4));
    assert(log_args(Some(date_text(y1, m1, d1) + rest1), Some(date_text(y2, m2, d2) + rest2)) =~= seq![
        "log"@,
        "--format=%H"@,
        "--since="@ + date_text(p.0, p.1, p.2),
        "--until="@ + date_text(n.0, n.1, n.2),
    ]);
}

} // verus!
