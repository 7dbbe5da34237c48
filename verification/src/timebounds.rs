//! Time bounds for `--after` / `--before` filters.
//!
//! Bounds are normalized to `YYYY-MM-DDTHH:MM:SS` (UTC). Comparing against a
//! transcript timestamp, or a modification time formatted the same way, is a
//! plain string comparison on the first 19 characters.

use vstd::prelude::*;
use crate::text::{
    debug_str, debug_text, signed_padded, zero_padded, chars_of, is_digit, owned, push_char,
    push_str, range_lt, seq_lt, string_of, string_of_range, trail_count, trim, trim_range,
    utf8_len, lemma_trail_count,
};

verus! {

broadcast use vstd::string::group_string_axioms;

/// Why a bound was refused; each variant keeps the input as given.
#[derive(Debug, PartialEq, Eq)]
pub enum BoundError {
    /// The date part is not `YYYY-MM-DD`.
    InvalidDate(String),
    /// The time part is not `HH`, `HH:MM` or `HH:MM:SS`.
    InvalidTime(String),
}

impl BoundError {
    /// The text of the message for this error.
    pub open spec fn message_view(&self) -> Seq<char> {
        match self {
            BoundError::InvalidDate(i) => "invalid date: expected YYYY-MM-DD, got "@ + debug_text(i@),
            BoundError::InvalidTime(i) => "invalid time: expected HH, HH:MM, or HH:MM:SS, got "@
                + debug_text(i@),
        }
    }

    /// The message the command line prints for this error.
    pub fn message(&self) -> (r: String)
        ensures
            r@ == self.message_view(),
    {
        match self {
            BoundError::InvalidDate(i) => {
                let mut out = owned("invalid date: expected YYYY-MM-DD, got ");
                let q = debug_str(i.as_str());
                push_str(&mut out, q.as_str());
                out
            },
            BoundError::InvalidTime(i) => {
                let mut out = owned("invalid time: expected HH, HH:MM, or HH:MM:SS, got ");
                let q = debug_str(i.as_str());
                push_str(&mut out, q.as_str());
                out
            },
        }
    }
}

/// `s.trim().trim_end_matches('Z')`.
pub open spec fn bound_core(s: Seq<char>) -> Seq<char> {
    let t = trim(s);
    t.take(t.len() - trail_count(t, 'Z'))
}

/// Index of the first `c` in `s`, if any.
pub open spec fn first_index(s: Seq<char>, c: char) -> Option<int> {
    if exists|i: int| 0 <= i < s.len() && s[i] == c {
        Some(choose|i: int| 0 <= i < s.len() && s[i] == c && forall|j: int| 0 <= j < i ==> s[j] != c)
    } else {
        None
    }
}

/// Part of the bound before the first `T` (all of it when there is none).
pub open spec fn date_part(core: Seq<char>) -> Seq<char> {
    match first_index(core, 'T') {
        Some(i) => core.take(i),
        None => core,
    }
}

/// Part of the bound after the first `T` (empty when there is none).
pub open spec fn time_part(core: Seq<char>) -> Seq<char> {
    match first_index(core, 'T') {
        Some(i) => core.skip(i + 1),
        None => Seq::empty(),
    }
}

/// `YYYY-MM-DD` with ASCII digits.
pub open spec fn date_ok(d: Seq<char>) -> bool {
    &&& d.len() == 10
    &&& is_digit(d[0]) && is_digit(d[1]) && is_digit(d[2]) && is_digit(d[3])
    &&& d[4] == '-'
    &&& is_digit(d[5]) && is_digit(d[6])
    &&& d[7] == '-'
    &&& is_digit(d[8]) && is_digit(d[9])
}

/// Characters `i` and `i + 1` of `t` are ASCII digits.
pub open spec fn two_digits(t: Seq<char>, i: int) -> bool {
    is_digit(t[i]) && is_digit(t[i + 1])
}

/// The time part padded to `HH:MM:SS`: empty, `HH`, `HH:MM` or `HH:MM:SS`,
/// with ASCII digits.
pub open spec fn padded_time(t: Seq<char>) -> Option<Seq<char>> {
    if t.len() == 0 {
        Some("00:00:00"@)
    } else if t.len() == 2 && two_digits(t, 0) {
        Some(t + ":00:00"@)
    } else if t.len() == 5 && two_digits(t, 0) && t[2] == ':' && two_digits(t, 3) {
        Some(t + ":00"@)
    } else if t.len() == 8 && two_digits(t, 0) && t[2] == ':' && two_digits(t, 3) && t[5] == ':'
        && two_digits(t, 6) {
        Some(t)
    } else {
        None
    }
}

/// `YYYY-MM-DDTHH:MM:SS` with ASCII digits: the normalized form of a bound.
pub open spec fn stamp_shape(r: Seq<char>) -> bool {
    &&& r.len() == 19
    &&& date_ok(r.take(10))
    &&& r[10] == 'T'
    &&& two_digits(r, 11)
    &&& r[13] == ':'
    &&& two_digits(r, 14)
    &&& r[16] == ':'
    &&& two_digits(r, 17)
}

/// The normalized bound for `input`, or which part of it is malformed.
pub open spec fn bound_of(input: Seq<char>) -> Result<Seq<char>, bool> {
    let core = bound_core(input);
    let d = date_part(core);
    if !date_ok(d) {
        Err(true)
    } else {
        match padded_time(time_part(core)) {
            Some(t) => Ok(d + "T"@ + t),
            None => Err(false),
        }
    }
}

proof fn lemma_first_index(s: Seq<char>, c: char, i: int)
    requires
        0 <= i <= s.len(),
        forall|j: int| 0 <= j < i ==> s[j] != c,
        i == s.len() || s[i] == c,
    ensures
        first_index(s, c) == (if i < s.len() {
            Some(i)
        } else {
            None::<int>
        }),
{
    if i < s.len() {
        assert(exists|j: int| 0 <= j < s.len() && s[j] == c);
        let k = choose|k: int|
            0 <= k < s.len() && s[k] == c && forall|j: int| 0 <= j < k ==> s[j] != c;
        assert(k == i) by {
            if k < i {
            } else if k > i {
            }
        }
    }
}


fn is_digit_exec(c: char) -> (r: bool)
    ensures
        r == is_digit(c),
{
    '0' <= c && c <= '9'
}

fn date_ok_exec(d: &Vec<char>) -> (r: bool)
    ensures
        r == date_ok(d@),
{
    d.len() == 10 && is_digit_exec(d[0]) && is_digit_exec(d[1]) && is_digit_exec(d[2])
        && is_digit_exec(d[3]) && d[4] == '-' && is_digit_exec(d[5]) && is_digit_exec(d[6])
        && d[7] == '-' && is_digit_exec(d[8]) && is_digit_exec(d[9])
}

/// Character range of `bound_core(v)` inside `v`.
fn core_range(v: &Vec<char>) -> (r: (usize, usize))
    ensures
        r.0 <= r.1 <= v@.len(),
        v@.subrange(r.0 as int, r.1 as int) == bound_core(v@),
{
    let (lo, hi) = trim_range(v);
    let mut end: usize = hi;
    while end > lo && v[end - 1] == 'Z'
        invariant
            lo <= end <= hi <= v@.len(),
            forall|j: int| end <= j < hi ==> #[trigger] v@[j] == 'Z',
        decreases end,
    {
        end = end - 1;
    }
    proof {
        let tt = v@.subrange(lo as int, hi as int);
        lemma_trail_count(tt, 'Z', (hi - end) as int);
        assert(bound_core(v@) =~= v@.subrange(lo as int, end as int));
    }
    (lo, end)
}

/// Splits `input` into its date and time parts (see [`date_part`], [`time_part`]).
#[verifier::spinoff_prover]
#[verifier::rlimit(40)]
fn split_bound(input: &str) -> (r: (Vec<char>, Vec<char>))
    ensures
        r.0@ == date_part(bound_core(input@)),
        r.1@ == time_part(bound_core(input@)),
{
    let v = chars_of(input);
    let (lo, end) = core_range(&v);
    let ghost core = v@.subrange(lo as int, end as int);
    let mut tpos: usize = lo;
    while tpos < end && v[tpos] != 'T'
        invariant
            lo <= tpos <= end <= v@.len(),
            forall|j: int| lo <= j < tpos ==> #[trigger] v@[j] != 'T',
        decreases end - tpos,
    {
        tpos = tpos + 1;
    }
    proof {
        assert forall|j: int| 0 <= j < tpos - lo implies core[j] != 'T' by {
            assert(core[j] == v@[lo + j]);
        }
        lemma_first_index(core, 'T', tpos - lo);
    }
    let dv = chars_of(string_of_range(&v, lo, tpos).as_str());
    let tv = if tpos < end {
        chars_of(string_of_range(&v, tpos + 1, end).as_str())
    } else {
        Vec::new()
    };
    proof {
        assert(dv@ =~= date_part(core));
        assert(tv@ =~= time_part(core));
    }
    (dv, tv)
}

fn digits_at(tv: &Vec<char>, i: usize) -> (r: bool)
    requires
        i < 8,
        i + 1 < tv@.len(),
    ensures
        r == two_digits(tv@, i as int),
{
    is_digit_exec(tv[i]) && is_digit_exec(tv[i + 1])
}

/// The time part padded to `HH:MM:SS` (see [`padded_time`]).
fn pad_time(tv: &Vec<char>) -> (r: Option<String>)
    ensures
        match (r, padded_time(tv@)) {
            (Some(s), Some(t)) => s@ == t,
            (None, None) => true,
            _ => false,
        },
{
    let n = tv.len();
    let mut out = String::new();
    if n == 0 {
        push_str(&mut out, "00:00:00");
        Some(out)
    } else if n == 2 && digits_at(tv, 0) {
        push_str(&mut out, string_of(tv).as_str());
        push_str(&mut out, ":00:00");
        Some(out)
    } else if n == 5 && digits_at(tv, 0) && tv[2] == ':' && digits_at(tv, 3) {
        push_str(&mut out, string_of(tv).as_str());
        push_str(&mut out, ":00");
        Some(out)
    } else if n == 8 && digits_at(tv, 0) && tv[2] == ':' && digits_at(tv, 3) && tv[5] == ':' && digits_at(
        tv,
        6,
    ) {
        push_str(&mut out, string_of(tv).as_str());
        Some(out)
    } else {
        None
    }
}

/// Parse a `--after` / `--before` bound into `YYYY-MM-DDTHH:MM:SS`.
///
/// Accepts `YYYY-MM-DD`, `...THH`, `...THH:MM`, `...THH:MM:SS`, with an
/// optional trailing `Z`. Missing parts pad with zeros: a date-only value
/// refers to the start of that day.
pub fn parse_bound(input: &str) -> (r: Result<String, BoundError>)
    ensures
        match (r, bound_of(input@)) {
            (Ok(s), Ok(t)) => s@ == t,
            (Err(BoundError::InvalidDate(e)), Err(true)) => e@ == input@,
            (Err(BoundError::InvalidTime(e)), Err(false)) => e@ == input@,
            _ => false,
        },
        r matches Ok(s) ==> stamp_shape(s@) && s@.take(10) == date_part(bound_core(input@)),
{
    proof {
        law_bound_shape(input@);
    }
    let (dv, tv) = split_bound(input);
    if !date_ok_exec(&dv) {
        return Err(BoundError::InvalidDate(owned(input)));
    }
    match pad_time(&tv) {
        Some(t) => {
            let mut out = string_of(&dv);
            push_char(&mut out, 'T');
            push_str(&mut out, t.as_str());
            proof {
                reveal_strlit("T");
            }
            assert(out@ =~= dv@ + "T"@ + t@);
            Ok(out)
        },
        None => Err(BoundError::InvalidTime(owned(input))),
    }
}

/// The first 19 characters of a timestamp (all of it when shorter): the
/// part compared with a bound.
pub open spec fn key19(s: Seq<char>) -> Seq<char> {
    if s.len() < 19 {
        s
    } else {
        s.take(19)
    }
}

/// The first 19 characters of a timestamp, as a string.
pub fn key19_str(s: &str) -> (r: String)
    ensures
        r@ == key19(s@),
{
    let v = chars_of(s);
    let k: usize = if v.len() < 19 {
        v.len()
    } else {
        19
    };
    let r = string_of_range(&v, 0, k);
    assert(v@.subrange(0, k as int) =~= key19(s@));
    r
}

/// The inclusive-after / exclusive-before window test on one timestamp.
pub open spec fn in_window(ts: Option<Seq<char>>, after: Option<Seq<char>>, before: Option<Seq<char>>) -> bool {
    if after is None && before is None {
        true
    } else {
        match ts {
            None => false,
            Some(t) => {
                &&& (after matches Some(a) ==> !seq_lt(key19(t), a))
                &&& (before matches Some(b) ==> seq_lt(key19(t), b))
            },
        }
    }
}

pub open spec fn opt_view(o: Option<&str>) -> Option<Seq<char>> {
    match o {
        Some(s) => Some(s@),
        None => None,
    }
}

/// `after` is inclusive, `before` is exclusive. When either bound is set,
/// untimestamped events are dropped.
pub fn in_range(ts: Option<&str>, after: Option<&str>, before: Option<&str>) -> (r: bool)
    ensures
        r == in_window(opt_view(ts), opt_view(after), opt_view(before)),
{
    if after.is_none() && before.is_none() {
        return true;
    }
    let t = match ts {
        Some(t) => t,
        None => {
            return false;
        },
    };
    let tv = chars_of(t);
    let k: usize = if tv.len() < 19 {
        tv.len()
    } else {
        19
    };
    assert(tv@.subrange(0, k as int) =~= key19(t@));
    if let Some(a) = after {
        let av = chars_of(a);
        if range_lt(&tv, 0, k, &av, 0, av.len()) {
            assert(av@.subrange(0, av@.len() as int) =~= a@);
            return false;
        }
        assert(av@.subrange(0, av@.len() as int) =~= a@);
    }
    if let Some(b) = before {
        let bv = chars_of(b);
        let lt = range_lt(&tv, 0, k, &bv, 0, bv.len());
        assert(bv@.subrange(0, bv@.len() as int) =~= b@);
        if !lt {
            return false;
        }
    }
    true
}

// ---------------------------------------------------------------------------
// Formatting a time
// ---------------------------------------------------------------------------


/// Howard Hinnant's `civil_from_days`: days since 1970-01-01 to (year,
/// month, day), computed over 400-year eras of 146097 days that start on
/// March 1st.
pub open spec fn civil(z: int) -> (int, u32, u32) {
    let z2 = z + 719_468;
    let era = z2 / 146_097;
    let doe = z2 % 146_097;
    let yoe = (doe - doe / 1460 + doe / 36_524 - doe / 146_096) / 365;
    let doy = doe - (365 * yoe + yoe / 4 - yoe / 100);
    let mp = (5 * doy + 2) / 153;
    let d = (doy - (153 * mp + 2) / 5 + 1) as u32;
    let m = (if mp < 10 { mp + 3 } else { mp - 9 }) as u32;
    let y = yoe + era * 400;
    (if m <= 2 { y + 1 } else { y }, m, d)
}

/// `secs` seconds after the Unix epoch as `YYYY-MM-DDTHH:MM:SS` (UTC).
pub open spec fn utc_text(secs: int) -> Seq<char> {
    let days = secs / 86_400;
    let sod = secs % 86_400;
    let (y, mo, d) = civil(days);
    signed_padded(y, 4) + "-"@ + zero_padded(mo as nat, 2) + "-"@ + zero_padded(d as nat, 2) + "T"@
        + zero_padded((sod / 3600) as nat, 2) + ":"@ + zero_padded(((sod / 60) % 60) as nat, 2) + ":"@
        + zero_padded((sod % 60) as nat, 2)
}

/// Floor division and remainder of `x` by a positive `c` (`div_euclid`,
/// `rem_euclid`).
fn div_rem_euclid(x: i64, c: i64) -> (r: (i64, i64))
    requires
        2 <= c <= 0x1_0000_0000,
    ensures
        r.0 == x as int / c as int,
        r.1 == x as int % c as int,
{
    if x >= 0 {
        let q = ((x as u64) / (c as u64)) as i64;
        let m = ((x as u64) % (c as u64)) as i64;
        proof {
            assert(q == x as int / c as int);
            assert(m == x as int % c as int);
        }
        (q, m)
    } else {
        // x = -n with n >= 1
        let n: u64 = if x == i64::MIN {
            0x8000_0000_0000_0000
        } else {
            (-x) as u64
        };
        let cu = c as u64;
        let qn = n / cu;
        let rn = n % cu;
        proof {
            assert(qn <= 0x4000_0000_0000_0000) by (nonlinear_arith)
                requires
                    qn == n as int / cu as int,
                    cu >= 2,
                    n <= 0x8000_0000_0000_0000,
            ;
            assert(n as int == -(x as int));
            assert(n as int == cu * qn + rn) by (nonlinear_arith)
                requires
                    qn == n as int / cu as int,
                    rn == n as int % cu as int,
                    cu > 0,
            ;
        }
        if rn == 0 {
            let q = -(qn as i64);
            proof {
                assert(x as int == c * q) by (nonlinear_arith)
                    requires
                        n as int == -(x as int),
                        n as int == cu * qn + rn,
                        rn == 0,
                        q == -(qn as int),
                        cu == c,
                ;
                vstd::arithmetic::div_mod::lemma_fundamental_div_mod_converse(x as int, c as int, q as int, 0);
            }
            (q, 0)
        } else {
            let q = -(qn as i64) - 1;
            let m = (cu - rn) as i64;
            proof {
                assert(x as int == c * q + m) by (nonlinear_arith)
                    requires
                        n as int == -(x as int),
                        n as int == cu * qn + rn,
                        q == -(qn as int) - 1,
                        m == cu - rn,
                        cu == c,
                ;
                vstd::arithmetic::div_mod::lemma_fundamental_div_mod_converse(x as int, c as int, q as int, m as int);
            }
            (q, m)
        }
    }
}

/// Days since 1970-01-01 to (year, month, day) (see [`civil`]).
pub fn civil_from_days(z: i64) -> (r: (i64, u32, u32))
    requires
        -0x10_0000_0000_0000 <= z <= 0x10_0000_0000_0000,
    ensures
        (r.0 as int, r.1, r.2) == civil(z as int),
{
    let z2 = z + 719_468;
    let (era, doe) = div_rem_euclid(z2, 146_097);
    proof {
        assert(0 <= doe < 146_097);
        assert(-0x10_0000_0000 <= era <= 0x10_0000_0000) by (nonlinear_arith)
            requires
                era == z2 as int / 146_097,
                -0x10_0000_0000_0000 <= z2 <= 0x10_0000_0000_0000 + 719_468,
        ;
    }
    let yoe = (doe - doe / 1460 + doe / 36_524 - doe / 146_096) / 365;
    let doy = doe - (365 * yoe + yoe / 4 - yoe / 100);
    let mp = (5 * doy + 2) / 153;
    let d = (doy - (153 * mp + 2) / 5 + 1) as u32;
    let m = (if mp < 10 {
        mp + 3
    } else {
        mp - 9
    }) as u32;
    let y = yoe + era * 400;
    let y = if m <= 2 {
        y + 1
    } else {
        y
    };
    (y, m, d)
}

/// Format a time given in seconds after the Unix epoch as
/// `YYYY-MM-DDTHH:MM:SS` in UTC.
pub fn format_utc(secs: i64) -> (r: String)
    ensures
        r@ == utc_text(secs as int),
{
    let (days, sod) = div_rem_euclid(secs, 86_400);
    proof {
        assert(-0x10_0000_0000_0000 <= days <= 0x10_0000_0000_0000) by (nonlinear_arith)
            requires
                days == secs as int / 86_400,
        ;
    }
    let (y, mo, d) = civil_from_days(days);
    let mut out = String::new();
    crate::text::push_signed_padded(&mut out, y, 4);
    push_str(&mut out, "-");
    crate::text::push_padded(&mut out, mo as u64, 2);
    push_str(&mut out, "-");
    crate::text::push_padded(&mut out, d as u64, 2);
    push_str(&mut out, "T");
    crate::text::push_padded(&mut out, (sod / 3600) as u64, 2);
    push_str(&mut out, ":");
    crate::text::push_padded(&mut out, ((sod / 60) % 60) as u64, 2);
    push_str(&mut out, ":");
    crate::text::push_padded(&mut out, (sod % 60) as u64, 2);
    out
}

/// The seconds a time is formatted at: none before the epoch counts 0, and
/// the whole seconds since it are taken as an `i64`.
pub open spec fn epoch_secs(since_epoch: Option<u64>) -> int {
    match since_epoch {
        Some(s) => (s as i64) as int,
        None => 0,
    }
}

/// Format a time as `YYYY-MM-DDTHH:MM:SS` in UTC. The time is given as
/// `t.duration_since(UNIX_EPOCH)` in whole seconds, `None` for a time before
/// the epoch, which clamps to the epoch (no transcript is from 1969); the
/// seconds are taken as an `i64`, as [`format_utc`] expects.
pub fn format_systime_utc(since_epoch: Option<u64>) -> (r: String)
    ensures
        r@ == utc_text(epoch_secs(since_epoch)),
{
    let secs: i64 = match since_epoch {
        Some(s) => s as i64,
        None => 0,
    };
    format_utc(secs)
}

// ---------------------------------------------------------------------------
// Laws of the bound parser
// ---------------------------------------------------------------------------

proof fn lemma_date_ascii(d: Seq<char>)
    requires
        date_ok(d),
    ensures
        utf8_len(d) == 10,
        forall|i: int| 0 <= i < d.len() ==> !crate::text::is_ws(#[trigger] d[i]) && d[i] != 'T' && d[i] != 'Z',
{
    assert forall|i: int| 0 <= i < d.len() implies (#[trigger] d[i] as u32) < 0x80 by {
        assert(is_digit(d[i]) || d[i] == '-');
    }
    crate::text::lemma_utf8_len_ascii(d);
    assert forall|i: int| 0 <= i < d.len() implies !crate::text::is_ws(#[trigger] d[i]) && d[i] != 'T'
        && d[i] != 'Z' by {
        assert(is_digit(d[i]) || d[i] == '-');
    }
}

/// Bounds are normalized to `YYYY-MM-DDTHH:MM:SS` with ASCII digits; the
/// first ten characters are the date as given.
pub proof fn law_bound_shape(input: Seq<char>)
    ensures
        bound_of(input) matches Ok(b) ==> stamp_shape(b) && b.take(10) == date_part(bound_core(input)),
{
    let core = bound_core(input);
    let d = date_part(core);
    let t = time_part(core);
    if let Ok(b) = bound_of(input) {
        reveal_strlit("T");
        reveal_strlit("00:00:00");
        reveal_strlit(":00:00");
        reveal_strlit(":00");
        let p = padded_time(t)->0;
        assert(b == d + "T"@ + p);
        assert(b.take(10) =~= d);
        assert(b[10] == 'T');
        assert(p.len() == 8);
        assert(forall|i: int| 0 <= i < 8 ==> b[11 + i] == #[trigger] p[i]);
        if t.len() == 2 {
            assert(p[0] == t[0] && p[1] == t[1]);
        } else if t.len() == 5 {
            assert(p[0] == t[0] && p[1] == t[1] && p[2] == t[2] && p[3] == t[3] && p[4] == t[4]);
        }
    }
}

/// A normalized bound parses as itself.
pub proof fn lemma_stamp_parses_as_itself(b: Seq<char>)
    requires
        stamp_shape(b),
    ensures
        bound_of(b) == Ok::<Seq<char>, bool>(b),
{
    reveal_strlit("T");
    let d = b.take(10);
    assert(d[0] == b[0] && d[9] == b[9] && d[4] == b[4] && d[7] == b[7]);
    assert(!crate::text::is_ws(b[0]) && !crate::text::is_ws(b[18]));
    crate::text::lemma_lead_ws(b, 0);
    crate::text::lemma_trail_ws(b, 0);
    assert(trim(b) =~= b);
    lemma_trail_count(b, 'Z', 0);
    assert(b.take(b.len() - 0) =~= b);
    assert(bound_core(b) == b);
    assert forall|j: int| 0 <= j < 10 implies b[j] != 'T' by {
        assert(b[j] == d[j]);
    }
    lemma_first_index(b, 'T', 10);
    assert(date_part(b) == d);
    let t = b.skip(11);
    assert(time_part(b) == t);
    assert(t.len() == 8);
    assert(t[0] == b[11] && t[1] == b[12] && t[2] == b[13] && t[3] == b[14] && t[4] == b[15]);
    assert(t[5] == b[16] && t[6] == b[17] && t[7] == b[18]);
    assert(padded_time(t) == Some(t));
    assert(d + "T"@ + t =~= b);
}

/// Parsing a bound that parsed gives it back: the normal form is stable.
pub proof fn law_bound_idempotent(input: Seq<char>)
    ensures
        bound_of(input) matches Ok(b) ==> bound_of(b) == Ok::<Seq<char>, bool>(b),
{
    law_bound_shape(input);
    if let Ok(b) = bound_of(input) {
        lemma_stamp_parses_as_itself(b);
    }
}

/// A date-only bound refers to the start of that day.
pub proof fn law_date_only_bound(d: Seq<char>)
    requires
        date_ok(d),
    ensures
        bound_of(d) == Ok::<Seq<char>, bool>(d + "T00:00:00"@),
{
    lemma_date_ascii(d);
    crate::text::lemma_lead_ws(d, 0);
    crate::text::lemma_trail_ws(d, 0);
    assert(trim(d) =~= d);
    lemma_trail_count(d, 'Z', 0);
    assert(d.take(d.len() - 0) =~= d);
    assert(bound_core(d) == d);
    assert(!(exists|i: int| 0 <= i < d.len() && d[i] == 'T'));
    assert(first_index(d, 'T') is None);
    reveal_strlit("00:00:00");
    reveal_strlit("T");
    reveal_strlit("T00:00:00");
    assert(utf8_len(Seq::<char>::empty()) == 0);
    assert(d + "T"@ + "00:00:00"@ =~= d + "T00:00:00"@);
}

// ---------------------------------------------------------------------------
// Laws of the time format
// ---------------------------------------------------------------------------

/// The year of era, and the day of that year, of a day of a 400-year era.
proof fn lemma_era_day(doe: int)
    requires
        0 <= doe <= 146096,
    ensures
        ({
            let yoe = (doe - doe / 1460 + doe / 36_524 - doe / 146_096) / 365;
            let doy = doe - (365 * yoe + yoe / 4 - yoe / 100);
            0 <= yoe <= 399 && 0 <= doy <= 365
        }),
{
}

/// Month and day of a civil date are a calendar month and a day of it; from
/// the epoch to the end of year 9999 the year has four digits.
proof fn lemma_civil_ranges(z: int)
    ensures
        1 <= civil(z).1 <= 12,
        1 <= civil(z).2 <= 31,
        0 <= z <= 2_932_896 ==> 1970 <= civil(z).0 <= 9999,
{
    let z2 = z + 719_468;
    let era = z2 / 146_097;
    let doe = z2 % 146_097;
    lemma_era_day(doe);
    let yoe = (doe - doe / 1460 + doe / 36_524 - doe / 146_096) / 365;
    let doy = doe - (365 * yoe + yoe / 4 - yoe / 100);
    let mp = (5 * doy + 2) / 153;
    assert(0 <= mp <= 11);
    assert(1 <= doy - (153 * mp + 2) / 5 + 1 <= 31);
    if 0 <= z <= 2_932_896 {
        assert(4 <= era <= 24);
        if era == 24 {
            assert(doe <= 146036);
            assert(yoe <= 399);
            if yoe == 399 {
                assert(doy <= 305);
                assert(mp <= 9);
            }
        }
    }
}

/// The digits of a number are ASCII digits.
proof fn lemma_decimal_digits(n: nat)
    ensures
        forall|i: int| 0 <= i < crate::text::decimal(n).len() ==> is_digit(#[trigger] crate::text::decimal(n)[i]),
    decreases n,
{
    if n >= 10 {
        lemma_decimal_digits(n / 10);
    }
    let d = crate::text::decimal(n);
    assert forall|i: int| 0 <= i < d.len() implies is_digit(#[trigger] d[i]) by {
        if n >= 10 && i < d.len() - 1 {
            assert(d[i] == crate::text::decimal(n / 10)[i]);
        } else {
            let k: nat = if n >= 10 { n % 10 } else { n };
            assert(d[i] == crate::text::digit_char(k));
        }
    }
}

/// A number below 10^w, zero-padded to `w`, is `w` ASCII digits (`w` 2 or 4).
proof fn lemma_padded_digits(n: nat, w: nat)
    requires
        (w == 2 && n < 100) || (w == 4 && n < 10000),
    ensures
        zero_padded(n, w).len() == w,
        forall|i: int| 0 <= i < w ==> is_digit(#[trigger] zero_padded(n, w)[i]),
{
    crate::text::lemma_decimal_len(n);
    lemma_decimal_digits(n);
    let d = crate::text::decimal(n);
    let p = zero_padded(n, w);
    assert forall|i: int| 0 <= i < w implies is_digit(#[trigger] p[i]) by {
        if d.len() < w {
            let k = (w - d.len()) as int;
            if i >= k {
                assert(p[i] == d[i - k]);
            }
        }
    }
}

/// From the epoch to the end of year 9999, a formatted time has the shape of
/// a normalized bound.
proof fn lemma_utc_shape(secs: int)
    requires
        0 <= secs <= 253_402_300_799,
    ensures
        stamp_shape(utc_text(secs)),
{
    let days = secs / 86_400;
    let sod = secs % 86_400;
    let (y, mo, d) = civil(days);
    lemma_civil_ranges(days);
    reveal_strlit("-");
    reveal_strlit("T");
    reveal_strlit(":");
    let hh = (sod / 3600) as nat;
    let mi = ((sod / 60) % 60) as nat;
    let ss = (sod % 60) as nat;
    assert(hh < 24 && mi < 60 && ss < 60);
    lemma_padded_digits(y as nat, 4);
    lemma_padded_digits(mo as nat, 2);
    lemma_padded_digits(d as nat, 2);
    lemma_padded_digits(hh, 2);
    lemma_padded_digits(mi, 2);
    lemma_padded_digits(ss, 2);
    let py = signed_padded(y, 4);
    assert(py == zero_padded(y as nat, 4));
    let pm = zero_padded(mo as nat, 2);
    let pd = zero_padded(d as nat, 2);
    let ph = zero_padded(hh, 2);
    let pi = zero_padded(mi, 2);
    let ps = zero_padded(ss, 2);
    let t = utc_text(secs);
    assert(t == py + "-"@ + pm + "-"@ + pd + "T"@ + ph + ":"@ + pi + ":"@ + ps);
    assert(t.len() == 19);
    assert(t[0] == py[0] && t[1] == py[1] && t[2] == py[2] && t[3] == py[3]);
    assert(t[4] == '-' && t[5] == pm[0] && t[6] == pm[1] && t[7] == '-');
    assert(t[8] == pd[0] && t[9] == pd[1] && t[10] == 'T');
    assert(t[11] == ph[0] && t[12] == ph[1] && t[13] == ':');
    assert(t[14] == pi[0] && t[15] == pi[1] && t[16] == ':');
    assert(t[17] == ps[0] && t[18] == ps[1]);
    let dd = t.take(10);
    assert(dd[0] == t[0] && dd[1] == t[1] && dd[2] == t[2] && dd[3] == t[3] && dd[4] == t[4]);
    assert(dd[5] == t[5] && dd[6] == t[6] && dd[7] == t[7] && dd[8] == t[8] && dd[9] == t[9]);
    assert(is_digit(py[0]) && is_digit(py[1]) && is_digit(py[2]) && is_digit(py[3]));
    assert(is_digit(pm[0]) && is_digit(pm[1]) && is_digit(pd[0]) && is_digit(pd[1]));
    assert(is_digit(ph[0]) && is_digit(ph[1]) && is_digit(pi[0]) && is_digit(pi[1]));
    assert(is_digit(ps[0]) && is_digit(ps[1]));
}

/// A modification time formatted for comparison reads back as a bound
/// unchanged (before the epoch it formats as the epoch), for every time up to
/// the end of year 9999.
pub proof fn law_formatted_time_parses_back(since_epoch: Option<u64>)
    requires
        since_epoch matches Some(s) ==> s <= 253_402_300_799,
    ensures
        bound_of(utc_text(epoch_secs(since_epoch))) == Ok::<Seq<char>, bool>(utc_text(epoch_secs(since_epoch))),
{
    assert(0 <= epoch_secs(since_epoch) <= 253_402_300_799);
    lemma_utc_shape(epoch_secs(since_epoch));
    lemma_stamp_parses_as_itself(utc_text(epoch_secs(since_epoch)));
}

// ---------------------------------------------------------------------------
// Formatted times keep the order of the times
// ---------------------------------------------------------------------------

/// Equal-length heads decide the order of two concatenations, or, when they
/// are equal, the tails do.
proof fn lemma_cat_lt(a1: Seq<char>, a2: Seq<char>, b1: Seq<char>, b2: Seq<char>)
    requires
        a1.len() == a2.len(),
        seq_lt(a1, a2) || (a1 == a2 && seq_lt(b1, b2)),
    ensures
        seq_lt(a1 + b1, a2 + b2),
    decreases a1.len(),
{
    if a1.len() == 0 {
        assert(a1 + b1 =~= b1);
        assert(a2 + b2 =~= b2);
    } else {
        assert((a1 + b1)[0] == a1[0]);
        assert((a2 + b2)[0] == a2[0]);
        assert((a1 + b1).drop_first() =~= a1.drop_first() + b1);
        assert((a2 + b2).drop_first() =~= a2.drop_first() + b2);
        if a1[0] == a2[0] {
            lemma_cat_lt(a1.drop_first(), a2.drop_first(), b1, b2);
        }
    }
}

/// The code of a digit character.
pub(crate) proof fn lemma_digit_code(k: nat)
    ensures
        (crate::text::digit_char(k) as u32) == k % 10 + 48,
{
}

/// Two digits, zero-padded.
pub(crate) proof fn lemma_pad2(n: nat)
    requires
        n < 100,
    ensures
        zero_padded(n, 2) == seq![crate::text::digit_char(n / 10), crate::text::digit_char(n)],
{
    reveal_with_fuel(crate::text::decimal, 2);
    let z = zero_padded(n, 2);
    if n < 10 {
        assert(crate::text::digit_char(0) == '0');
        assert(z =~= seq![crate::text::digit_char(n / 10), crate::text::digit_char(n)]);
    } else {
        assert(crate::text::digit_char(n % 10) == crate::text::digit_char(n));
        assert(z =~= seq![crate::text::digit_char(n / 10), crate::text::digit_char(n)]);
    }
}

/// Four digits, zero-padded.
pub(crate) proof fn lemma_pad4(n: nat)
    requires
        n < 10000,
    ensures
        zero_padded(n, 4) == seq![
            crate::text::digit_char(n / 1000),
            crate::text::digit_char(n / 100),
            crate::text::digit_char(n / 10),
            crate::text::digit_char(n),
        ],
{
    reveal_with_fuel(crate::text::decimal, 4);
    let z = zero_padded(n, 4);
    let w = seq![
        crate::text::digit_char(n / 1000),
        crate::text::digit_char(n / 100),
        crate::text::digit_char(n / 10),
        crate::text::digit_char(n),
    ];
    assert(crate::text::digit_char(0) == '0');
    assert(crate::text::digit_char(n % 10) == crate::text::digit_char(n));
    assert((n / 10) / 10 == n / 100);
    assert((n / 100) / 10 == n / 1000);
    assert(crate::text::digit_char((n / 10) % 10) == crate::text::digit_char(n / 10));
    assert(crate::text::digit_char((n / 100) % 10) == crate::text::digit_char(n / 100));
    if n < 10 {
        assert(z =~= w);
    } else if n < 100 {
        assert(z =~= w);
    } else if n < 1000 {
        assert(z =~= w);
    } else {
        assert(z =~= w);
    }
}

/// Of two seqs of one length, the first that differs at `k`, after equal
/// characters, with a smaller code there, is the smaller.
proof fn lemma_lt_at(a: Seq<char>, b: Seq<char>, k: int)
    requires
        a.len() == b.len(),
        0 <= k < a.len(),
        forall|i: int| 0 <= i < k ==> a[i] == b[i],
        (a[k] as u32) < (b[k] as u32),
    ensures
        seq_lt(a, b),
    decreases k,
{
    if k > 0 {
        lemma_lt_at(a.drop_first(), b.drop_first(), k - 1);
        assert(a[0] == b[0]);
    }
}

/// The digit of a higher place decides, or, when equal, the next one down.
proof fn lemma_place_step(n1: nat, n2: nat)
    requires
        n1 < n2,
        n1 / 10 == n2 / 10,
    ensures
        n1 % 10 < n2 % 10,
{
}

/// Dropping a place keeps the order.
proof fn lemma_place_mono(n1: nat, n2: nat, c: nat)
    requires
        n1 <= n2,
        c > 0,
    ensures
        n1 / c <= n2 / c,
{
    vstd::arithmetic::div_mod::lemma_div_is_ordered(n1 as int, n2 as int, c as int);
}

/// Two zero-padded digits keep the order of numbers.
proof fn lemma_pad2_lt(n1: nat, n2: nat)
    requires
        n1 < n2 < 100,
    ensures
        seq_lt(zero_padded(n1, 2), zero_padded(n2, 2)),
        zero_padded(n1, 2).len() == 2,
        zero_padded(n2, 2).len() == 2,
{
    let a = zero_padded(n1, 2);
    let b = zero_padded(n2, 2);
    lemma_pad2(n1);
    lemma_pad2(n2);
    lemma_digit_code(n1);
    lemma_digit_code(n2);
    lemma_digit_code(n1 / 10);
    lemma_digit_code(n2 / 10);
    lemma_place_mono(n1, n2, 10);
    if n1 / 10 < n2 / 10 {
        lemma_lt_at(a, b, 0);
    } else {
        lemma_place_step(n1, n2);
        lemma_lt_at(a, b, 1);
    }
}

/// Four zero-padded digits keep the order of numbers.
proof fn lemma_pad4_lt(n1: nat, n2: nat)
    requires
        n1 < n2 < 10000,
    ensures
        seq_lt(zero_padded(n1, 4), zero_padded(n2, 4)),
        zero_padded(n1, 4).len() == 4,
        zero_padded(n2, 4).len() == 4,
{
    let a = zero_padded(n1, 4);
    let b = zero_padded(n2, 4);
    lemma_pad4(n1);
    lemma_pad4(n2);
    lemma_digit_code(n1);
    lemma_digit_code(n2);
    lemma_digit_code(n1 / 10);
    lemma_digit_code(n2 / 10);
    lemma_digit_code(n1 / 100);
    lemma_digit_code(n2 / 100);
    lemma_digit_code(n1 / 1000);
    lemma_digit_code(n2 / 1000);
    assert((n1 / 10) / 10 == n1 / 100 && (n2 / 10) / 10 == n2 / 100);
    assert((n1 / 100) / 10 == n1 / 1000 && (n2 / 100) / 10 == n2 / 1000);
    lemma_place_mono(n1, n2, 10);
    lemma_place_mono(n1 / 10, n2 / 10, 10);
    lemma_place_mono(n1 / 100, n2 / 100, 10);
    assert(n1 / 1000 < 10 && n2 / 1000 < 10);
    if n1 / 1000 < n2 / 1000 {
        assert(forall|i: int| 0 <= i < 0 ==> a[i] == b[i]);
        lemma_lt_at(a, b, 0);
    } else if n1 / 100 < n2 / 100 {
        lemma_place_step(n1 / 100, n2 / 100);
        lemma_lt_at(a, b, 1);
    } else if n1 / 10 < n2 / 10 {
        lemma_place_step(n1 / 10, n2 / 10);
        lemma_lt_at(a, b, 2);
    } else {
        lemma_place_step(n1, n2);
        lemma_lt_at(a, b, 3);
    }
}

/// A separator and a two-digit field, then the rest: the field decides, or,
/// when equal, the rest does.
proof fn lemma_field_lt(sep: Seq<char>, n1: nat, n2: nat, r1: Seq<char>, r2: Seq<char>)
    requires
        n1 < 100,
        n2 < 100,
        n1 < n2 || (n1 == n2 && seq_lt(r1, r2)),
    ensures
        seq_lt(sep + zero_padded(n1, 2) + r1, sep + zero_padded(n2, 2) + r2),
{
    lemma_pad2(n1);
    lemma_pad2(n2);
    let a1 = sep + zero_padded(n1, 2);
    let a2 = sep + zero_padded(n2, 2);
    if n1 < n2 {
        lemma_pad2_lt(n1, n2);
        lemma_cat_lt(sep, sep, zero_padded(n1, 2), zero_padded(n2, 2));
    }
    lemma_cat_lt(a1, a2, r1, r2);
}

/// A formatted time, field by field, each field with the separator before it.
pub open spec fn stamp_text(y: nat, mo: nat, d: nat, hh: nat, mi: nat, ss: nat) -> Seq<char> {
    zero_padded(y, 4) + ("-"@ + zero_padded(mo, 2) + ("-"@ + zero_padded(d, 2) + ("T"@ + zero_padded(hh, 2) + (
    ":"@ + zero_padded(mi, 2) + (":"@ + zero_padded(ss, 2) + Seq::<char>::empty())))))
}

/// Fields in lexicographic order give formatted times in string order.
proof fn lemma_stamp_lt(
    y1: nat, mo1: nat, d1: nat, hh1: nat, mi1: nat, ss1: nat,
    y2: nat, mo2: nat, d2: nat, hh2: nat, mi2: nat, ss2: nat,
)
    requires
        y1 < 10000 && y2 < 10000,
        mo1 < 100 && mo2 < 100 && d1 < 100 && d2 < 100,
        hh1 < 100 && hh2 < 100 && mi1 < 100 && mi2 < 100 && ss1 < 100 && ss2 < 100,
        ({
            let lt_s = ss1 < ss2;
            let lt_i = mi1 < mi2 || (mi1 == mi2 && lt_s);
            let lt_h = hh1 < hh2 || (hh1 == hh2 && lt_i);
            let lt_d = d1 < d2 || (d1 == d2 && lt_h);
            let lt_m = mo1 < mo2 || (mo1 == mo2 && lt_d);
            y1 < y2 || (y1 == y2 && lt_m)
        }),
    ensures
        seq_lt(stamp_text(y1, mo1, d1, hh1, mi1, ss1), stamp_text(y2, mo2, d2, hh2, mi2, ss2)),
{
    let e = Seq::<char>::empty();
    let ts1 = ":"@ + zero_padded(ss1, 2) + e;
    let ts2 = ":"@ + zero_padded(ss2, 2) + e;
    let ti1 = ":"@ + zero_padded(mi1, 2) + ts1;
    let ti2 = ":"@ + zero_padded(mi2, 2) + ts2;
    let th1 = "T"@ + zero_padded(hh1, 2) + ti1;
    let th2 = "T"@ + zero_padded(hh2, 2) + ti2;
    let td1 = "-"@ + zero_padded(d1, 2) + th1;
    let td2 = "-"@ + zero_padded(d2, 2) + th2;
    let tm1 = "-"@ + zero_padded(mo1, 2) + td1;
    let tm2 = "-"@ + zero_padded(mo2, 2) + td2;
    let lt_s = ss1 < ss2;
    let lt_i = mi1 < mi2 || (mi1 == mi2 && lt_s);
    let lt_h = hh1 < hh2 || (hh1 == hh2 && lt_i);
    let lt_d = d1 < d2 || (d1 == d2 && lt_h);
    let lt_m = mo1 < mo2 || (mo1 == mo2 && lt_d);
    if lt_s {
        lemma_field_lt(":"@, ss1, ss2, e, e);
    }
    if lt_i {
        lemma_field_lt(":"@, mi1, mi2, ts1, ts2);
    }
    if lt_h {
        lemma_field_lt("T"@, hh1, hh2, ti1, ti2);
    }
    if lt_d {
        lemma_field_lt("-"@, d1, d2, th1, th2);
    }
    if lt_m {
        lemma_field_lt("-"@, mo1, mo2, td1, td2);
    }
    lemma_pad4(y1);
    lemma_pad4(y2);
    if y1 < y2 {
        lemma_pad4_lt(y1, y2);
    }
    lemma_cat_lt(zero_padded(y1, 4), zero_padded(y2, 4), tm1, tm2);
}

/// The day count of an era before the year-of-era division.
spec fn era_count(doe: int) -> int {
    doe - doe / 1460 + doe / 36_524 - doe / 146_096
}

/// Later days of an era count no fewer days.
proof fn lemma_era_count_mono(a: int, b: int)
    requires
        0 <= a <= b <= 146096,
    ensures
        era_count(a) <= era_count(b),
{
    if a < b {
        let qa = a / 1460;
        let qb = b / 1460;
        assert(qb - qa <= b - a);
        vstd::arithmetic::div_mod::lemma_div_is_ordered(a, b, 36_524);
        if b == 146096 {
            assert(b / 36_524 == 4);
            if a < 146096 {
                assert(a / 36_524 <= 3);
                assert(qb - qa + 1 <= b - a + 1);
            }
        }
    }
}

/// Later days have later dates.
proof fn lemma_civil_mono(z1: int, z2: int)
    requires
        z1 < z2,
    ensures
        civil(z1).0 < civil(z2).0 || (civil(z1).0 == civil(z2).0 && ((civil(z1).1 as int) < (
        civil(z2).1 as int) || (civil(z1).1 == civil(z2).1 && (civil(z1).2 as int) < (civil(z2).2 as int)))),
{
    let a = z1 + 719_468;
    let b = z2 + 719_468;
    let ea = a / 146_097;
    let eb = b / 146_097;
    let da = a % 146_097;
    let db = b % 146_097;
    vstd::arithmetic::div_mod::lemma_div_is_ordered(a, b, 146_097);
    lemma_era_day(da);
    lemma_era_day(db);
    let ya = era_count(da) / 365;
    let yb = era_count(db) / 365;
    let doya = da - (365 * ya + ya / 4 - ya / 100);
    let doyb = db - (365 * yb + yb / 4 - yb / 100);
    let mpa = (5 * doya + 2) / 153;
    let mpb = (5 * doyb + 2) / 153;
    let dda = doya - (153 * mpa + 2) / 5 + 1;
    let ddb = doyb - (153 * mpb + 2) / 5 + 1;
    assert(0 <= mpa <= 11 && 0 <= mpb <= 11);
    // the March-based year, month and day are in lexicographic order
    let ypa = ya + ea * 400;
    let ypb = yb + eb * 400;
    if ea == eb {
        assert(da < db);
        lemma_era_count_mono(da, db);
        vstd::arithmetic::div_mod::lemma_div_is_ordered(era_count(da), era_count(db), 365);
        if ya == yb {
            assert(doya < doyb);
            vstd::arithmetic::div_mod::lemma_div_is_ordered(5 * doya + 2, 5 * doyb + 2, 153);
            if mpa == mpb {
                assert(dda < ddb);
            }
        }
    } else {
        assert(ypa < ypb);
    }
    assert(ypa < ypb || (ypa == ypb && (mpa < mpb || (mpa == mpb && dda < ddb))));
    assert(civil(z1) == ((if mpa >= 10 { ypa + 1 } else { ypa }), (if mpa < 10 { mpa + 3 } else { mpa - 9 }) as u32, dda as u32));
    assert(civil(z2) == ((if mpb >= 10 { ypb + 1 } else { ypb }), (if mpb < 10 { mpb + 3 } else { mpb - 9 }) as u32, ddb as u32));
}

/// Eleven pieces joined left to right, or nested to the right in pairs.
proof fn lemma_join_assoc(
    p0: Seq<char>,
    s1: Seq<char>,
    p1: Seq<char>,
    s2: Seq<char>,
    p2: Seq<char>,
    s3: Seq<char>,
    p3: Seq<char>,
    s4: Seq<char>,
    p4: Seq<char>,
    s5: Seq<char>,
    p5: Seq<char>,
)
    ensures
        p0 + s1 + p1 + s2 + p2 + s3 + p3 + s4 + p4 + s5 + p5 == p0 + (s1 + p1 + (s2 + p2 + (s3 + p3 + (s4
            + p4 + (s5 + p5 + Seq::<char>::empty()))))),
{
    let e = Seq::<char>::empty();
    let t5 = s5 + p5 + e;
    assert(t5 =~= s5 + p5);
    let t4 = s4 + p4 + t5;
    assert(t4 =~= s4 + p4 + s5 + p5);
    let t3 = s3 + p3 + t4;
    assert(t3 =~= s3 + p3 + s4 + p4 + s5 + p5);
    let t2 = s2 + p2 + t3;
    assert(t2 =~= s2 + p2 + s3 + p3 + s4 + p4 + s5 + p5);
    let t1 = s1 + p1 + t2;
    assert(t1 =~= s1 + p1 + s2 + p2 + s3 + p3 + s4 + p4 + s5 + p5);
    assert(p0 + t1 =~= p0 + s1 + p1 + s2 + p2 + s3 + p3 + s4 + p4 + s5 + p5);
}

/// The fields of a formatted time, joined left to right or nested to the right.
proof fn lemma_stamp_assoc(y: nat, mo: nat, d: nat, hh: nat, mi: nat, ss: nat)
    ensures
        zero_padded(y, 4) + "-"@ + zero_padded(mo, 2) + "-"@ + zero_padded(d, 2) + "T"@ + zero_padded(hh, 2)
            + ":"@ + zero_padded(mi, 2) + ":"@ + zero_padded(ss, 2) == stamp_text(y, mo, d, hh, mi, ss),
{
    lemma_join_assoc(
        zero_padded(y, 4),
        "-"@,
        zero_padded(mo, 2),
        "-"@,
        zero_padded(d, 2),
        "T"@,
        zero_padded(hh, 2),
        ":"@,
        zero_padded(mi, 2),
        ":"@,
        zero_padded(ss, 2),
    );
}

/// The fields of a formatted time, field by field.
proof fn lemma_utc_stamp(secs: int)
    requires
        0 <= secs <= 253_402_300_799,
    ensures
        utc_text(secs) == stamp_text(
            civil(secs / 86_400).0 as nat,
            civil(secs / 86_400).1 as nat,
            civil(secs / 86_400).2 as nat,
            ((secs % 86_400) / 3600) as nat,
            (((secs % 86_400) / 60) % 60) as nat,
            ((secs % 86_400) % 60) as nat,
        ),
{
    lemma_civil_ranges(secs / 86_400);
    let c = civil(secs / 86_400);
    assert(signed_padded(c.0, 4) == zero_padded(c.0 as nat, 4));
    lemma_stamp_assoc(
        c.0 as nat,
        c.1 as nat,
        c.2 as nat,
        ((secs % 86_400) / 3600) as nat,
        (((secs % 86_400) / 60) % 60) as nat,
        ((secs % 86_400) % 60) as nat,
    );
}

/// A later second of a day has a later hour, minute and second.
proof fn lemma_time_of_day_lt(a: int, b: int)
    requires
        0 <= a < b < 86_400,
    ensures
        a / 3600 < b / 3600 || (a / 3600 == b / 3600 && ((a / 60) % 60 < (b / 60) % 60 || ((a / 60) % 60
            == (b / 60) % 60 && a % 60 < b % 60))),
{
    assert(a == 3600 * (a / 3600) + 60 * ((a / 60) % 60) + a % 60);
    assert(b == 3600 * (b / 3600) + 60 * ((b / 60) % 60) + b % 60);
}

/// A later second, up to the end of year 9999, formats as a greater string.
proof fn lemma_utc_text_lt(s1: int, s2: int)
    requires
        0 <= s1 < s2 <= 253_402_300_799,
    ensures
        seq_lt(utc_text(s1), utc_text(s2)),
{
    let days1 = s1 / 86_400;
    let days2 = s2 / 86_400;
    let sod1 = s1 % 86_400;
    let sod2 = s2 % 86_400;
    vstd::arithmetic::div_mod::lemma_div_is_ordered(s1, s2, 86_400);
    lemma_civil_ranges(days1);
    lemma_civil_ranges(days2);
    lemma_utc_stamp(s1);
    lemma_utc_stamp(s2);
    assert(sod1 / 3600 < 24 && sod2 / 3600 < 24);
    if days1 == days2 {
        assert(sod1 < sod2);
        lemma_time_of_day_lt(sod1, sod2);
    } else {
        lemma_civil_mono(days1, days2);
    }
    lemma_stamp_lt(
        civil(days1).0 as nat,
        civil(days1).1 as nat,
        civil(days1).2 as nat,
        (sod1 / 3600) as nat,
        ((sod1 / 60) % 60) as nat,
        (sod1 % 60) as nat,
        civil(days2).0 as nat,
        civil(days2).1 as nat,
        civil(days2).2 as nat,
        (sod2 / 3600) as nat,
        ((sod2 / 60) % 60) as nat,
        (sod2 % 60) as nat,
    );
}

/// Formatted modification times are in the order of the times, so comparing
/// them as strings against a bound compares the times: a time no later than
/// another formats as a string no greater, and an earlier whole second as a
/// smaller one. Times are given as for [`format_systime_utc`] (`None` before
/// the epoch, which formats as the epoch) and run to the end of year 9999.
pub proof fn law_formatted_times_keep_order(t1: Option<u64>, t2: Option<u64>)
    requires
        t1 matches Some(a) ==> (t2 matches Some(b) && a <= b),
        t2 matches Some(b) ==> b <= 253_402_300_799,
    ensures
        crate::text::seq_le(utc_text(epoch_secs(t1)), utc_text(epoch_secs(t2))),
        epoch_secs(t1) < epoch_secs(t2) ==> seq_lt(utc_text(epoch_secs(t1)), utc_text(epoch_secs(t2))),
{
    let s1 = epoch_secs(t1);
    let s2 = epoch_secs(t2);
    assert(0 <= s1 <= s2 <= 253_402_300_799);
    if s1 < s2 {
        lemma_utc_text_lt(s1, s2);
    }
}

} // verus!
