//! `--turns` selectors: Python-slice-like, 1-indexed, negatives from the end.

use vstd::prelude::*;
use crate::text::{
    chars_of, debug_str, debug_text, decimal, int_text, is_digit, owned, push_decimal, push_int, push_str,
    string_of_range, trim, trim_range,
};

verus! {

broadcast use vstd::string::group_string_axioms;

/// A turn selector. 1-indexed; negatives count from the end.
#[derive(Debug, PartialEq, Eq, Structural)]
pub enum TurnSpec {
    All,
    Single(i64),
    Range(Option<i64>, Option<i64>),
}

/// Why a `--turns` selector was refused.
#[derive(Debug, PartialEq, Eq)]
pub enum TurnSpecError {
    /// The selector is blank.
    Empty,
    /// A bound is 0 (turns are 1-indexed).
    Zero,
    /// This piece is not a decimal `i64`.
    InvalidNumber(String),
    /// A single turn beyond the transcript's end: the turn and the total.
    OutOfRange(i64, usize),
}

impl TurnSpecError {
    /// The text of the message for this error.
    pub open spec fn message_view(&self) -> Seq<char> {
        match self {
            TurnSpecError::Empty => "empty --turns spec"@,
            TurnSpecError::Zero => "--turns: 0 is not a valid turn (use 1-indexed)"@,
            TurnSpecError::InvalidNumber(s) => "--turns: invalid number "@ + debug_text(s@),
            TurnSpecError::OutOfRange(n, total) => "--turns: "@ + int_text(*n as int)
                + " is out of range (transcript has "@ + decimal(*total as nat) + " turn"@ + (if *total
                == 1 {
                ""@
            } else {
                "s"@
            }) + ")"@,
        }
    }

    /// The message the command line prints for this error.
    pub fn message(&self) -> (r: String)
        ensures
            r@ == self.message_view(),
    {
        match self {
            TurnSpecError::Empty => owned("empty --turns spec"),
            TurnSpecError::Zero => owned("--turns: 0 is not a valid turn (use 1-indexed)"),
            TurnSpecError::InvalidNumber(s) => {
                let mut out = owned("--turns: invalid number ");
                let q = debug_str(s.as_str());
                push_str(&mut out, q.as_str());
                out
            },
            TurnSpecError::OutOfRange(n, total) => {
                let mut out = owned("--turns: ");
                push_int(&mut out, *n);
                push_str(&mut out, " is out of range (transcript has ");
                push_decimal(&mut out, *total as u64);
                push_str(&mut out, " turn");
                push_str(&mut out, if *total == 1 { "" } else { "s" });
                push_str(&mut out, ")");
                out
            },
        }
    }
}

/// What parsing a selector yields, with its strings as character sequences.
pub enum TurnParse {
    Spec(TurnSpec),
    Empty,
    Zero,
    Invalid(Seq<char>),
}

// ---------------------------------------------------------------------------
// Integers
// ---------------------------------------------------------------------------

pub open spec fn all_digits(s: Seq<char>) -> bool {
    s.len() > 0 && forall|i: int| 0 <= i < s.len() ==> is_digit(#[trigger] s[i])
}

/// Value of a run of decimal digits.
pub open spec fn digits_value(s: Seq<char>) -> int
    decreases s.len(),
{
    if s.len() == 0 {
        0
    } else {
        digits_value(s.drop_last()) * 10 + (s.last() as int - '0' as int)
    }
}

/// `i64::from_str`: an optional sign, then one or more ASCII digits, in range.
pub open spec fn int_of(s: Seq<char>) -> Option<int> {
    if s.len() > 0 && s[0] == '-' {
        let r = s.drop_first();
        if all_digits(r) && -digits_value(r) >= i64::MIN {
            Some(-digits_value(r))
        } else {
            None
        }
    } else if s.len() > 0 && s[0] == '+' {
        let r = s.drop_first();
        if all_digits(r) && digits_value(r) <= i64::MAX {
            Some(digits_value(r))
        } else {
            None
        }
    } else if all_digits(s) && digits_value(s) <= i64::MAX {
        Some(digits_value(s))
    } else {
        None
    }
}

proof fn lemma_digits_value_nonneg(s: Seq<char>)
    requires
        forall|i: int| 0 <= i < s.len() ==> is_digit(#[trigger] s[i]),
    ensures
        digits_value(s) >= 0,
    decreases s.len(),
{
    if s.len() > 0 {
        lemma_digits_value_nonneg(s.drop_last());
    }
}

proof fn lemma_digits_value_mono(s: Seq<char>, k: int)
    requires
        0 <= k <= s.len(),
        forall|i: int| 0 <= i < s.len() ==> is_digit(#[trigger] s[i]),
    ensures
        digits_value(s.take(k)) <= digits_value(s),
    decreases s.len() - k,
{
    if k < s.len() {
        assert(s.drop_last().take(k) =~= s.take(k));
        lemma_digits_value_mono(s.drop_last(), k);
        lemma_digits_value_nonneg(s.drop_last());
    } else {
        assert(s.take(k) =~= s);
    }
}

/// Value of the digits `v[lo..hi]`, or `None` when it exceeds `2^63`.
fn digits_upto(v: &Vec<char>, lo: usize, hi: usize) -> (r: Option<u64>)
    requires
        lo <= hi <= v@.len(),
        all_digits(v@.subrange(lo as int, hi as int)),
    ensures
        match r {
            Some(n) => n == digits_value(v@.subrange(lo as int, hi as int)) && n <= 0x8000_0000_0000_0000,
            None => digits_value(v@.subrange(lo as int, hi as int)) > 0x8000_0000_0000_0000,
        },
{
    let ghost s = v@.subrange(lo as int, hi as int);
    let mut acc: u64 = 0;
    let mut i: usize = lo;
    while i < hi
        invariant
            lo <= i <= hi <= v@.len(),
            s == v@.subrange(lo as int, hi as int),
            all_digits(s),
            acc == digits_value(s.take(i - lo)),
            acc <= 0x8000_0000_0000_0000,
        decreases hi - i,
    {
        assert(s[i - lo] == v@[i as int]);
        assert(is_digit(v@[i as int]));
        let d: u64 = (v[i] as u32 - '0' as u32) as u64;
        assert(s.take(i - lo + 1).drop_last() =~= s.take(i - lo));
        if acc > 0x0CCC_CCCC_CCCC_CCCC {
            proof {
                lemma_digits_value_mono(s, i - lo + 1);
                lemma_digits_value_nonneg(s.take(i - lo));
            }
            return None;
        }
        let next: u64 = acc * 10 + d;
        if next > 0x8000_0000_0000_0000 {
            proof {
                lemma_digits_value_mono(s, i - lo + 1);
            }
            return None;
        }
        acc = next;
        i = i + 1;
    }
    assert(s.take(hi - lo) =~= s);
    Some(acc)
}

/// Whether `v[lo..hi]` is a non-empty run of ASCII digits.
fn all_digits_exec(v: &Vec<char>, lo: usize, hi: usize) -> (r: bool)
    requires
        lo <= hi <= v@.len(),
    ensures
        r == all_digits(v@.subrange(lo as int, hi as int)),
{
    if lo == hi {
        return false;
    }
    let mut i: usize = lo;
    while i < hi
        invariant
            lo <= i <= hi <= v@.len(),
            forall|j: int| lo <= j < i ==> is_digit(#[trigger] v@[j]),
        decreases hi - i,
    {
        if !('0' <= v[i] && v[i] <= '9') {
            assert(!is_digit(v@.subrange(lo as int, hi as int)[i - lo]));
            return false;
        }
        i = i + 1;
    }
    assert forall|j: int| 0 <= j < hi - lo implies is_digit(#[trigger] v@.subrange(lo as int, hi as int)[j]) by {
        assert(v@.subrange(lo as int, hi as int)[j] == v@[lo + j]);
    }
    true
}

/// The `i64` written in `s` after trimming (`s.trim().parse::<i64>()`).
pub fn parse_i64(s: &str) -> (r: Option<i64>)
    ensures
        match r {
            Some(n) => int_of(trim(s@)) == Some(n as int),
            None => int_of(trim(s@)) is None,
        },
{
    let v = chars_of(s);
    let (lo, hi) = trim_range(&v);
    let ghost t = trim(s@);
    assert(t =~= v@.subrange(lo as int, hi as int));
    if lo == hi {
        return None;
    }
    let neg = v[lo] == '-';
    let start: usize = if v[lo] == '-' || v[lo] == '+' {
        lo + 1
    } else {
        lo
    };
    assert(v@.subrange(start as int, hi as int) =~= if start == lo {
        t
    } else {
        t.drop_first()
    });
    if !all_digits_exec(&v, start, hi) {
        return None;
    }
    match digits_upto(&v, start, hi) {
        None => None,
        Some(n) => {
            if neg {
                if n == 0x8000_0000_0000_0000 {
                    Some(i64::MIN)
                } else {
                    Some(-(n as i64))
                }
            } else {
                if n > 0x7FFF_FFFF_FFFF_FFFF {
                    None
                } else {
                    Some(n as i64)
                }
            }
        },
    }
}

/// The `i64` written in `s` exactly (`s.parse::<i64>()`, no trimming).
pub fn parse_i64_exact(s: &str) -> (r: Option<i64>)
    ensures
        match r {
            Some(n) => int_of(s@) == Some(n as int),
            None => int_of(s@) is None,
        },
{
    let v = chars_of(s);
    let (lo, hi) = trim_range(&v);
    if lo != 0 || hi != v.len() {
        proof {
            crate::text::lemma_lead_ws_props(s@);
            crate::text::lemma_trail_ws_props(s@);
            if s@.len() > 0 {
                if lo != 0 {
                    assert(crate::text::is_ws(s@[0]));
                    assert(!is_digit(s@[0]));
                } else {
                    assert(!crate::text::is_ws(s@[0]));
                    assert(v@ == s@);
                    if crate::text::trail_ws(s@) == s@.len() {
                        assert(crate::text::is_ws(s@[0]));
                    }
                    assert(crate::text::trail_ws(s@) < s@.len());
                    assert(trim(s@).len() == s@.len() - crate::text::trail_ws(s@));
                    assert(lo < hi);
                    let k = s@.len() - 1;
                    assert(crate::text::is_ws(s@[k]));
                    assert(!is_digit(s@[k]));
                    if s@[0] == '-' || s@[0] == '+' {
                        assert(s@.drop_first()[k - 1] == s@[k]);
                    }
                }
            }
        }
        return None;
    }
    assert(trim(s@) =~= s@) by {
        assert(v@.subrange(0, v@.len() as int) =~= v@);
    }
    parse_i64(s)
}

/// `u64::from_str`: an optional `+`, then one or more ASCII digits, in range.
pub open spec fn uint_of(s: Seq<char>) -> Option<int> {
    let r = if s.len() > 0 && s[0] == '+' {
        s.drop_first()
    } else {
        s
    };
    if all_digits(r) && digits_value(r) <= u64::MAX {
        Some(digits_value(r))
    } else {
        None
    }
}

/// The `u64` written in `s` exactly (`s.parse::<u64>()`).
pub fn parse_u64_exact(s: &str) -> (r: Option<u64>)
    ensures
        match r {
            Some(n) => uint_of(s@) == Some(n as int),
            None => uint_of(s@) is None,
        },
{
    let v = chars_of(s);
    let start: usize = if v.len() > 0 && v[0] == '+' {
        1
    } else {
        0
    };
    let ghost r = v@.subrange(start as int, v@.len() as int);
    assert(r =~= if v@.len() > 0 && v@[0] == '+' {
        s@.drop_first()
    } else {
        s@
    });
    if !all_digits_exec(&v, start, v.len()) {
        return None;
    }
    assert(uint_of(s@) == if digits_value(r) <= u64::MAX {
        Some(digits_value(r))
    } else {
        None
    });
    let mut acc: u64 = 0;
    let mut i: usize = start;
    while i < v.len()
        invariant
            uint_of(s@) == if digits_value(r) <= u64::MAX {
                Some(digits_value(r))
            } else {
                None
            },
            start <= i <= v@.len(),
            r == v@.subrange(start as int, v@.len() as int),
            all_digits(r),
            acc == digits_value(r.take(i - start)),
        decreases v@.len() - i,
    {
        assert(r[i - start] == v@[i as int]);
        assert(is_digit(v@[i as int]));
        let d: u64 = (v[i] as u32 - '0' as u32) as u64;
        assert(r.take(i - start + 1).drop_last() =~= r.take(i - start));
        assert(r.take(i - start + 1).last() == v@[i as int]);
        assert(d == v@[i as int] as int - '0' as int);
        assert(digits_value(r.take(i - start + 1)) == digits_value(r.take(i - start)) * 10 + d);
        if acc > (u64::MAX - d) / 10 {
            proof {
                lemma_digits_value_mono(r, i - start + 1);
                lemma_digits_value_nonneg(r.take(i - start));
                assert(digits_value(r.take(i - start + 1)) == acc * 10 + d) by (nonlinear_arith)
                    requires
                        digits_value(r.take(i - start + 1)) == digits_value(r.take(i - start)) * 10 + d,
                        acc == digits_value(r.take(i - start)),
                ;
                assert(acc * 10 + d > u64::MAX) by (nonlinear_arith)
                    requires
                        acc > (u64::MAX - d) / 10,
                        d <= 9,
                ;
            }
            return None;
        }
        proof {
            assert(acc * 10 + d <= u64::MAX) by (nonlinear_arith)
                requires
                    acc <= (u64::MAX - d) / 10,
                    d <= 9,
            ;
        }
        acc = acc * 10 + d;
        i = i + 1;
    }
    assert(r.take(v@.len() - start) =~= r);
    Some(acc)
}

// ---------------------------------------------------------------------------
// Parsing selectors
// ---------------------------------------------------------------------------

/// `s` holds `..` at character `i`.
pub open spec fn dd_at(s: Seq<char>, i: int) -> bool {
    0 <= i && i + 1 < s.len() && s[i] == '.' && s[i + 1] == '.'
}

/// Index of the first `..` in `s`.
pub open spec fn dotdot(s: Seq<char>) -> Option<int> {
    if exists|i: int| dd_at(s, i) {
        Some(choose|i: int| dd_at(s, i) && forall|j: int| 0 <= j < i ==> !#[trigger] dd_at(s, j))
    } else {
        None
    }
}

/// One bound of a range: blank means open, otherwise an `i64`.
pub open spec fn bound_part(a: Seq<char>) -> Option<Option<int>> {
    if a.len() == 0 {
        Some(None)
    } else {
        match int_of(trim(a)) {
            Some(n) => Some(Some(n)),
            None => None,
        }
    }
}

pub open spec fn opt_i64(o: Option<int>) -> Option<i64> {
    match o {
        Some(n) => Some(n as i64),
        None => None,
    }
}

/// Meaning of a trimmed selector with its first `..` at `i`.
pub open spec fn range_parse(s: Seq<char>, i: int) -> TurnParse {
    let a = s.take(i);
    let b = s.skip(i + 2);
    match (bound_part(a), bound_part(b)) {
        (None, _) => TurnParse::Invalid(a),
        (Some(_), None) => TurnParse::Invalid(b),
        (Some(lo), Some(hi)) => if lo == Some(0int) || hi == Some(0int) {
            TurnParse::Zero
        } else {
            TurnParse::Spec(TurnSpec::Range(opt_i64(lo), opt_i64(hi)))
        },
    }
}

/// Meaning of a trimmed selector without `..`.
pub open spec fn single_parse(s: Seq<char>) -> TurnParse {
    match int_of(s) {
        None => TurnParse::Invalid(s),
        Some(n) => if n == 0 {
            TurnParse::Zero
        } else {
            TurnParse::Spec(TurnSpec::Single(n as i64))
        },
    }
}

/// What a `--turns` selector means.
pub open spec fn turn_parse(s0: Seq<char>) -> TurnParse {
    let s = trim(s0);
    if s.len() == 0 {
        TurnParse::Empty
    } else {
        match dotdot(s) {
            Some(i) => range_parse(s, i),
            None => single_parse(s),
        }
    }
}

pub open spec fn parse_matches(r: Result<TurnSpec, TurnSpecError>, p: TurnParse) -> bool {
    match (r, p) {
        (Ok(x), TurnParse::Spec(y)) => x == y,
        (Err(TurnSpecError::Empty), TurnParse::Empty) => true,
        (Err(TurnSpecError::Zero), TurnParse::Zero) => true,
        (Err(TurnSpecError::InvalidNumber(e)), TurnParse::Invalid(t)) => e@ == t,
        _ => false,
    }
}

proof fn lemma_dotdot(s: Seq<char>, i: int)
    requires
        0 <= i,
        forall|j: int| 0 <= j < i ==> !#[trigger] dd_at(s, j),
        i + 1 >= s.len() || dd_at(s, i),
    ensures
        dotdot(s) == (if i + 1 < s.len() {
            Some(i)
        } else {
            None::<int>
        }),
{
    if i + 1 < s.len() {
        assert(dd_at(s, i));
        let k = choose|k: int| dd_at(s, k) && forall|j: int| 0 <= j < k ==> !#[trigger] dd_at(s, j);
        if k < i {
            assert(!dd_at(s, k));
        } else if k > i {
            assert(!dd_at(s, i));
        }
    } else {
        if exists|k: int| dd_at(s, k) {
            let k = choose|k: int| dd_at(s, k);
            assert(!dd_at(s, k));
        }
    }
}

/// One bound of a range (see [`bound_part`]).
fn parse_bound_part(v: &Vec<char>, lo: usize, hi: usize) -> (r: Result<Option<i64>, TurnSpecError>)
    requires
        lo <= hi <= v@.len(),
    ensures
        match (r, bound_part(v@.subrange(lo as int, hi as int))) {
            (Ok(Some(n)), Some(Some(m))) => n as int == m,
            (Ok(None), Some(None)) => true,
            (Err(TurnSpecError::InvalidNumber(e)), None) => e@ == v@.subrange(lo as int, hi as int),
            _ => false,
        },
{
    if lo == hi {
        return Ok(None);
    }
    let piece = string_of_range(v, lo, hi);
    match parse_i64(piece.as_str()) {
        Some(n) => Ok(Some(n)),
        None => Err(TurnSpecError::InvalidNumber(piece)),
    }
}

/// Index of the first `..` in `v`, or `v.len()` when there is none.
fn find_dotdot(v: &Vec<char>) -> (r: usize)
    ensures
        r <= v@.len(),
        dotdot(v@) == (if r + 1 < v@.len() {
            Some(r as int)
        } else {
            None::<int>
        }),
{
    if v.len() == 0 {
        proof {
            lemma_dotdot(v@, 0);
        }
        return 0;
    }
    let n: usize = v.len();
    let mut i: usize = 0;
    while i + 1 < n && !(v[i] == '.' && v[i + 1] == '.')
        invariant
            n == v@.len(),
            0 < n,
            i < n,
            forall|j: int| 0 <= j < i ==> !#[trigger] dd_at(v@, j),
        decreases v@.len() - i,
    {
        i = i + 1;
    }
    proof {
        lemma_dotdot(v@, i as int);
    }
    i
}

fn parse_range(v: &Vec<char>, i: usize) -> (r: Result<TurnSpec, TurnSpecError>)
    requires
        i + 1 < v@.len(),
    ensures
        parse_matches(r, range_parse(v@, i as int)),
{
    let n: usize = v.len();
    assert(v@.subrange(0, i as int) =~= v@.take(i as int));
    assert(v@.subrange(i + 2, v@.len() as int) =~= v@.skip(i + 2));
    let lo_b = match parse_bound_part(v, 0, i) {
        Ok(x) => x,
        Err(e) => {
            return Err(e);
        },
    };
    let hi_b = match parse_bound_part(v, i + 2, n) {
        Ok(x) => x,
        Err(e) => {
            return Err(e);
        },
    };
    let lo_zero = match lo_b {
        Some(n) => n == 0,
        None => false,
    };
    let hi_zero = match hi_b {
        Some(n) => n == 0,
        None => false,
    };
    if lo_zero || hi_zero {
        return Err(TurnSpecError::Zero);
    }
    Ok(TurnSpec::Range(lo_b, hi_b))
}

fn parse_single(t: String, v: &Vec<char>) -> (r: Result<TurnSpec, TurnSpecError>)
    requires
        v@ == t@,
        trim(v@) == v@,
    ensures
        parse_matches(r, single_parse(v@)),
{
    match parse_i64(t.as_str()) {
        None => Err(TurnSpecError::InvalidNumber(t)),
        Some(n) => {
            if n == 0 {
                Err(TurnSpecError::Zero)
            } else {
                Ok(TurnSpec::Single(n))
            }
        },
    }
}

impl TurnSpec {
    pub fn parse(s: &str) -> (r: Result<TurnSpec, TurnSpecError>)
        ensures
            parse_matches(r, turn_parse(s@)),
    {
        let v0 = chars_of(s);
        let (lo, hi) = trim_range(&v0);
        let t = string_of_range(&v0, lo, hi);
        let v = chars_of(t.as_str());
        assert(v@ =~= trim(s@));
        if v.len() == 0 {
            return Err(TurnSpecError::Empty);
        }
        let i = find_dotdot(&v);
        if i < v.len() && i + 1 < v.len() {
            parse_range(&v, i)
        } else {
            proof {
                crate::text::lemma_trim_idempotent(s@);
            }
            parse_single(t, &v)
        }
    }

    /// True when the spec requires knowing the total number of visible turns
    /// before streaming (negative indices, or a single turn to validate).
    pub open spec fn needs_total_spec(&self) -> bool {
        match *self {
            TurnSpec::All => false,
            TurnSpec::Single(_) => true,
            TurnSpec::Range(lo, hi) => (lo matches Some(n) && n < 0) || (hi matches Some(n) && n < 0),
        }
    }

    pub fn needs_total(&self) -> (r: bool)
        ensures
            r == self.needs_total_spec(),
    {
        match *self {
            TurnSpec::All => false,
            TurnSpec::Single(_) => true,
            TurnSpec::Range(lo, hi) => {
                (match lo {
                    Some(n) => n < 0,
                    None => false,
                }) || (match hi {
                    Some(n) => n < 0,
                    None => false,
                })
            },
        }
    }

    /// The streaming window when the total is unknown (`usize::MAX` = open end).
    pub open spec fn open_window(&self) -> (usize, usize) {
        match *self {
            TurnSpec::Range(lo, hi) => {
                let l: usize = match lo {
                    Some(n) => if n < 1 {
                        1
                    } else {
                        n as usize
                    },
                    None => 1,
                };
                let h: usize = match hi {
                    Some(n) => n as usize,
                    None => usize::MAX,
                };
                if l > h {
                    (1, 0)
                } else {
                    (l, h)
                }
            },
            _ => (1, usize::MAX),
        }
    }

    /// Resolve to a streaming `(lo, hi)` without knowing the total. Only valid
    /// when `needs_total()` is false: `hi` may be `usize::MAX`, meaning open.
    pub fn resolve_open(&self) -> (r: (usize, usize))
        requires
            !self.needs_total_spec(),
        ensures
            r == self.open_window(),
    {
        match *self {
            TurnSpec::All => (1, usize::MAX),
            TurnSpec::Range(lo, hi) => {
                let l: usize = match lo {
                    Some(n) => if n < 1 {
                        1
                    } else {
                        n as usize
                    },
                    None => 1,
                };
                let h: usize = match hi {
                    Some(n) => n as usize,
                    None => usize::MAX,
                };
                if l > h {
                    (1, 0)
                } else {
                    (l, h)
                }
            },
            TurnSpec::Single(_) => (1, usize::MAX),
        }
    }

    /// The window `(lo, hi)` for `total` visible turns, or `None` for a single
    /// turn beyond the end. Empty selections are `(1, 0)`.
    pub open spec fn window(&self, total: nat) -> Option<(nat, nat)> {
        if total == 0 {
            Some((1, 0))
        } else {
            match *self {
                TurnSpec::All => Some((1, total)),
                TurnSpec::Single(n) => if (abs(n as int) as usize) > total {
                    None
                } else {
                    Some((resolve_one(n as int, total), resolve_one(n as int, total)))
                },
                TurnSpec::Range(lo, hi) => {
                    let l = match lo {
                        Some(n) => position(n as int, total),
                        None => 1,
                    };
                    let h = match hi {
                        Some(n) => position(n as int, total),
                        None => total,
                    };
                    if l > h {
                        Some((1, 0))
                    } else {
                        Some((clamp(l, total), clamp(h, total)))
                    }
                },
            }
        }
    }

    /// Resolve to an inclusive 1-indexed `(lo, hi)` clamped to `total`.
    /// Empty selections (lo > hi or total == 0) are returned as `(1, 0)`: the
    /// bounds are compared as asked (negatives counted from the end) before
    /// they are clamped, so `5..4` is empty whatever the total.
    pub fn resolve(&self, total: usize) -> (r: Result<(usize, usize), TurnSpecError>)
        ensures
            match (r, self.window(total as nat)) {
                (Ok((a, b)), Some((x, y))) => a == x && b == y,
                (Err(TurnSpecError::OutOfRange(n, t)), None) => *self == TurnSpec::Single(n) && t == total,
                _ => false,
            },
    {
        if total == 0 {
            return Ok((1, 0));
        }
        match *self {
            TurnSpec::All => Ok((1, total)),
            TurnSpec::Single(n) => {
                let a: u64 = if n == i64::MIN {
                    0x8000_0000_0000_0000
                } else if n < 0 {
                    (-n) as u64
                } else {
                    n as u64
                };
                if a as usize > total {
                    return Err(TurnSpecError::OutOfRange(n, total));
                }
                let r = resolve_one_exec(n, total);
                Ok((r, r))
            },
            TurnSpec::Range(lo, hi) => {
                let l: usize = match lo {
                    Some(n) => position_exec(n, total),
                    None => 1,
                };
                let h: usize = match hi {
                    Some(n) => position_exec(n, total),
                    None => total,
                };
                if l > h {
                    Ok((1, 0))
                } else {
                    Ok((if l < total { l } else { total }, if h < total { h } else { total }))
                }
            },
        }
    }
}

pub open spec fn abs(n: int) -> int {
    if n < 0 {
        -n
    } else {
        n
    }
}

/// The turn a bound asks for: a positive index as given, `-k` the `k`-th from
/// the end (at least 1).
pub open spec fn position(n: int, total: nat) -> nat {
    if n > 0 {
        (n as usize) as nat
    } else {
        resolve_one(n, total)
    }
}

/// `n` clamped to `total`.
pub open spec fn clamp(n: nat, total: nat) -> nat {
    if n < total {
        n
    } else {
        total
    }
}

fn position_exec(n: i64, total: usize) -> (r: usize)
    ensures
        r == position(n as int, total as nat),
{
    if n > 0 {
        n as usize
    } else {
        resolve_one_exec(n, total)
    }
}

/// A positive index clamps to `total`; `-k` is the `k`-th from the end, at least 1.
pub open spec fn resolve_one(n: int, total: nat) -> nat {
    if n > 0 {
        if (n as usize) < total {
            (n as usize) as nat
        } else {
            total
        }
    } else {
        let from_end: int = (-n) as usize as int;
        let back: int = if from_end >= 1 {
            from_end - 1
        } else {
            0
        };
        let r: int = if total >= back {
            total - back
        } else {
            0
        };
        if r < 1 {
            1
        } else {
            r as nat
        }
    }
}

fn resolve_one_exec(n: i64, total: usize) -> (r: usize)
    ensures
        r == resolve_one(n as int, total as nat),
{
    if n > 0 {
        let m: usize = n as usize;
        if m < total {
            m
        } else {
            total
        }
    } else {
        let magnitude: u64 = if n == i64::MIN {
            0x8000_0000_0000_0000
        } else {
            (-n) as u64
        };
        assert(magnitude as int == -(n as int));
        let from_end: usize = magnitude as usize;
        assert(from_end == (-(n as int)) as usize);
        let back: usize = from_end.saturating_sub(1);
        total.saturating_sub(back).max(1)
    }
}

/// Every bound of the selector fits in a `usize`.
pub open spec fn bounds_fit(s: TurnSpec) -> bool {
    match s {
        TurnSpec::All => true,
        TurnSpec::Single(n) => abs(n as int) <= usize::MAX,
        TurnSpec::Range(lo, hi) => (lo matches Some(n) ==> abs(n as int) <= usize::MAX) && (hi matches Some(
            n,
        ) ==> abs(n as int) <= usize::MAX),
    }
}

/// A resolved index lies among the turns.
proof fn lemma_resolve_one_bounds(n: int, total: nat)
    requires
        total >= 1,
        abs(n) <= usize::MAX,
    ensures
        1 <= resolve_one(n, total) <= total,
{
}

/// A resolved window is either empty, `(1, 0)`, or lies within the turns
/// `1..=total`.
pub proof fn law_window_bounds(s: TurnSpec, total: nat)
    requires
        bounds_fit(s),
    ensures
        s.window(total) matches Some((lo, hi)) ==> (lo == 1 && hi == 0) || (1 <= lo <= hi <= total),
{
    if total > 0 {
        match s {
            TurnSpec::Single(n) => lemma_resolve_one_bounds(n as int, total),
            TurnSpec::Range(lo, hi) => {
                if let Some(n) = lo {
                    lemma_resolve_one_bounds(n as int, total);
                }
                if let Some(n) = hi {
                    lemma_resolve_one_bounds(n as int, total);
                }
            },
            _ => {},
        }
    }
}

/// `int_of` yields an `i64`.
proof fn lemma_int_of_range(s: Seq<char>)
    ensures
        int_of(s) matches Some(n) ==> i64::MIN <= n <= i64::MAX,
{
    if s.len() > 0 && all_digits(s.drop_first()) {
        lemma_digits_value_nonneg(s.drop_first());
    }
    if all_digits(s) {
        lemma_digits_value_nonneg(s);
    }
}

/// Turns are 1-indexed: a selector that parses has no bound 0.
pub proof fn law_parsed_bounds_nonzero(s: Seq<char>)
    ensures
        turn_parse(s) matches TurnParse::Spec(t) ==> match t {
            TurnSpec::All => true,
            TurnSpec::Single(n) => n != 0,
            TurnSpec::Range(lo, hi) => lo != Some(0i64) && hi != Some(0i64),
        },
{
    let t = trim(s);
    if t.len() > 0 {
        match dotdot(t) {
            Some(i) => {
                let a = t.take(i);
                let b = t.skip(i + 2);
                if a.len() > 0 {
                    lemma_int_of_range(trim(a));
                }
                if b.len() > 0 {
                    lemma_int_of_range(trim(b));
                }
            },
            None => lemma_int_of_range(t),
        }
    }
}


/// A range of positive turns streams as the inclusive `(lo, hi)` it names.
pub proof fn law_open_range_inclusive(a: i64, b: i64)
    requires
        1 <= a <= b,
        b <= usize::MAX,
    ensures
        TurnSpec::Range(Some(a), Some(b)).open_window() == (a as usize, b as usize),
        TurnSpec::Range(Some(a), None).open_window() == (a as usize, usize::MAX),
{
}

/// Streaming without the total shows what resolving with it shows: for a
/// selector that needs no total (no negative bound, and no bound 0, which no
/// parsed selector has) and whose bounds fit a `usize`, the open window cut at `total` is the window for
/// `total` turns, whenever it starts within them.
pub proof fn law_open_window_agrees(s: TurnSpec, total: nat)
    requires
        !s.needs_total_spec(),
        bounds_fit(s),
        s matches TurnSpec::Range(lo, hi) ==> lo != Some(0i64) && hi != Some(0i64),
        1 <= total <= usize::MAX,
        s.open_window().0 <= total,
    ensures
        s.window(total) == Some((
            s.open_window().0 as nat,
            if s.open_window().1 < total { s.open_window().1 as nat } else { total },
        )),
{
    match s {
        TurnSpec::Range(lo, hi) => {
            let l: nat = match lo {
                Some(a) => a as nat,
                None => 1,
            };
            let h: nat = match hi {
                Some(b) => b as nat,
                None => total,
            };
            if let Some(a) = lo {
                assert(a >= 1);
                assert(a as usize == a);
                assert(position(a as int, total) == a);
            }
            if let Some(b) = hi {
                assert(b >= 1);
                assert(b as usize == b);
                assert(position(b as int, total) == b);
            }
            if l > h {
                assert(s.window(total) == Some((1nat, 0nat)));
                assert(s.open_window() == (1usize, 0usize));
            } else {
                assert(s.window(total) == Some((clamp(l, total), clamp(h, total))));
                assert(s.open_window().0 == l);
                assert(clamp(l, total) == l);
                assert(clamp(h, total) == if s.open_window().1 < total { s.open_window().1 as nat } else { total });
            }
        },
        _ => {},
    }
}

} // verus!
