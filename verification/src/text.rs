//! Character-level text model shared by every module.
//!
//! Strings are reasoned about through their `Seq<char>` view. Where the
//! command line measures in bytes (snippet windows, 19-byte timestamp
//! prefixes, `len()` checks) the byte count is the UTF-8 width of the
//! characters, given by [`utf8_width`].

use vstd::prelude::*;
use vstd::string::StringExecFns;

verus! {

broadcast use vstd::string::group_string_axioms;

// ---------------------------------------------------------------------------
// UTF-8 widths
// ---------------------------------------------------------------------------

/// Number of bytes of the UTF-8 encoding of `c`.
pub open spec fn utf8_width(c: char) -> nat {
    if (c as u32) < 0x80 {
        1
    } else if (c as u32) < 0x800 {
        2
    } else if (c as u32) < 0x10000 {
        3
    } else {
        4
    }
}

/// Number of bytes of the UTF-8 encoding of `s`.
pub open spec fn utf8_len(s: Seq<char>) -> nat
    decreases s.len(),
{
    if s.len() == 0 {
        0
    } else {
        utf8_len(s.drop_last()) + utf8_width(s.last())
    }
}

/// Byte offset at which character `k` of `s` starts.
pub open spec fn byte_offset(s: Seq<char>, k: int) -> nat {
    utf8_len(s.take(k))
}

/// Byte offset `n` falls between two characters of `s` (or at either end).
pub open spec fn is_boundary(s: Seq<char>, n: int) -> bool {
    exists|k: int| 0 <= k <= s.len() && #[trigger] byte_offset(s, k) == n
}

/// The characters of `s` that lie before byte offset `n`, `n` being a boundary.
pub open spec fn byte_prefix(s: Seq<char>, n: int) -> Seq<char> {
    s.take(choose|k: int| 0 <= k <= s.len() && #[trigger] byte_offset(s, k) == n)
}

pub proof fn lemma_byte_offset_step(s: Seq<char>, k: int)
    requires
        0 <= k < s.len(),
    ensures
        byte_offset(s, k + 1) == byte_offset(s, k) + utf8_width(s[k]),
{
    assert(s.take(k + 1).drop_last() =~= s.take(k));
}

pub proof fn lemma_byte_offset_zero(s: Seq<char>)
    ensures
        byte_offset(s, 0) == 0,
{
    assert(s.take(0).len() == 0);
}

pub proof fn lemma_byte_offset_full(s: Seq<char>)
    ensures
        byte_offset(s, s.len() as int) == utf8_len(s),
{
    assert(s.take(s.len() as int) =~= s);
}

/// Byte offsets grow strictly with the character index.
pub proof fn lemma_byte_offset_strict(s: Seq<char>, i: int, j: int)
    requires
        0 <= i < j <= s.len(),
    ensures
        byte_offset(s, i) + (j - i) <= byte_offset(s, j),
    decreases j - i,
{
    lemma_byte_offset_step(s, j - 1);
    if i < j - 1 {
        lemma_byte_offset_strict(s, i, j - 1);
    }
}

/// A boundary is reached by exactly one character index.
pub proof fn lemma_byte_offset_injective(s: Seq<char>, i: int, j: int)
    requires
        0 <= i <= s.len(),
        0 <= j <= s.len(),
        byte_offset(s, i) == byte_offset(s, j),
    ensures
        i == j,
{
    if i < j {
        lemma_byte_offset_strict(s, i, j);
    } else if j < i {
        lemma_byte_offset_strict(s, j, i);
    }
}

pub proof fn lemma_byte_prefix(s: Seq<char>, k: int)
    requires
        0 <= k <= s.len(),
    ensures
        is_boundary(s, byte_offset(s, k) as int),
        byte_prefix(s, byte_offset(s, k) as int) == s.take(k),
{
    let n = byte_offset(s, k) as int;
    assert(is_boundary(s, n));
    let c = choose|c: int| 0 <= c <= s.len() && #[trigger] byte_offset(s, c) == n;
    lemma_byte_offset_injective(s, c, k);
}

pub proof fn lemma_utf8_len_concat(a: Seq<char>, b: Seq<char>)
    ensures
        utf8_len(a + b) == utf8_len(a) + utf8_len(b),
    decreases b.len(),
{
    if b.len() == 0 {
        assert(a + b =~= a);
    } else {
        assert((a + b).drop_last() =~= a + b.drop_last());
        lemma_utf8_len_concat(a, b.drop_last());
    }
}

/// An all-ASCII sequence has as many bytes as characters.
pub proof fn lemma_utf8_len_ascii(s: Seq<char>)
    requires
        forall|i: int| 0 <= i < s.len() ==> (#[trigger] s[i] as u32) < 0x80,
    ensures
        utf8_len(s) == s.len(),
    decreases s.len(),
{
    if s.len() > 0 {
        lemma_utf8_len_ascii(s.drop_last());
    }
}

pub proof fn lemma_utf8_len_bounds(s: Seq<char>)
    ensures
        s.len() <= utf8_len(s) <= 4 * s.len(),
    decreases s.len(),
{
    if s.len() > 0 {
        lemma_utf8_len_bounds(s.drop_last());
    }
}

/// `str::len`: the number of bytes of the UTF-8 encoding of `s`.
///
/// vstd gives `str::len` as the length of `encode_utf8(s@)` cast to `usize`;
/// with no bound known on that length the cast cannot be taken away, so the
/// byte count is claimed here directly, as std documents it.
#[verifier::external_body]
pub(crate) fn str_len(s: &str) -> (n: usize)
    ensures
        n == utf8_len(s@),
{
    s.len()
}

/// Character index at which byte offset `n` of `s` starts (`n` a boundary).
pub open spec fn char_pos(s: Seq<char>, n: int) -> int {
    choose|k: int| 0 <= k <= s.len() && #[trigger] byte_offset(s, k) == n
}

pub proof fn lemma_char_pos(s: Seq<char>, k: int)
    requires
        0 <= k <= s.len(),
    ensures
        char_pos(s, byte_offset(s, k) as int) == k,
{
    let n = byte_offset(s, k) as int;
    assert(0 <= k <= s.len() && byte_offset(s, k) == n);
    let c = char_pos(s, n);
    lemma_byte_offset_injective(s, c, k);
}

/// Every character offset lies within the string's bytes.
pub proof fn lemma_byte_offset_le_len(s: Seq<char>, k: int)
    requires
        0 <= k <= s.len(),
    ensures
        byte_offset(s, k) <= utf8_len(s),
{
    lemma_byte_offset_full(s);
    if k < s.len() {
        lemma_byte_offset_strict(s, k, s.len() as int);
    }
}

/// Byte width of one character.
pub fn char_width(c: char) -> (w: usize)
    ensures
        w == utf8_width(c),
        1 <= w <= 4,
{
    let u: u32 = c as u32;
    if u < 0x80 {
        1
    } else if u < 0x800 {
        2
    } else if u < 0x10000 {
        3
    } else {
        4
    }
}

/// Character index at which byte offset `n` starts, if `n` is a boundary.
pub fn char_index_at_byte(s: &Vec<char>, n: usize) -> (r: Option<usize>)
    ensures
        match r {
            Some(k) => k <= s@.len() && byte_offset(s@, k as int) == n,
            None => !is_boundary(s@, n as int),
        },
{
    let mut k: usize = 0;
    let mut off: usize = 0;
    proof {
        lemma_byte_offset_zero(s@);
    }
    while k < s.len() && off < n
        invariant
            k <= s@.len(),
            off == byte_offset(s@, k as int),
            off <= n,
            forall|j: int| 0 <= j < k ==> byte_offset(s@, j) < n,
        decreases s@.len() - k,
    {
        proof {
            lemma_byte_offset_step(s@, k as int);
        }
        let w = char_width(s[k]);
        if w > n - off {
            proof {
                assert forall|j: int| 0 <= j <= s@.len() implies byte_offset(s@, j) != n by {
                    if j > k {
                        if j > k + 1 {
                            lemma_byte_offset_strict(s@, k + 1, j);
                        }
                    }
                }
            }
            return None;
        }
        off = off + w;
        k = k + 1;
    }
    if off == n {
        Some(k)
    } else {
        proof {
            assert forall|j: int| 0 <= j <= s@.len() implies byte_offset(s@, j) != n by {
                if j > k {
                    lemma_byte_offset_strict(s@, k as int, j);
                }
            }
        }
        None
    }
}

// ---------------------------------------------------------------------------
// Character classes
// ---------------------------------------------------------------------------

/// Unicode `White_Space`, the set that `char::is_whitespace` and `str::trim` use.
pub open spec fn is_ws(c: char) -> bool {
    let u = c as u32;
    (0x09 <= u <= 0x0d) || u == 0x20 || u == 0x85 || u == 0xa0 || u == 0x1680 || (0x2000 <= u
        <= 0x200a) || u == 0x2028 || u == 0x2029 || u == 0x202f || u == 0x205f || u == 0x3000
}

pub fn is_whitespace(c: char) -> (r: bool)
    ensures
        r == is_ws(c),
{
    let u: u32 = c as u32;
    (0x09 <= u && u <= 0x0d) || u == 0x20 || u == 0x85 || u == 0xa0 || u == 0x1680 || (0x2000
        <= u && u <= 0x200a) || u == 0x2028 || u == 0x2029 || u == 0x202f || u == 0x205f || u
        == 0x3000
}

pub open spec fn is_digit(c: char) -> bool {
    '0' <= c <= '9'
}

/// Every character of `s` is an ASCII digit.
pub open spec fn all_ascii_digits(s: Seq<char>) -> bool {
    forall|i: int| 0 <= i < s.len() ==> is_digit(#[trigger] s[i])
}

/// Whether `v[from..]` holds ASCII digits only.
pub fn ascii_digits_exec(v: &Vec<char>, from: usize) -> (r: bool)
    requires
        from <= v@.len(),
    ensures
        r == all_ascii_digits(v@.subrange(from as int, v@.len() as int)),
{
    let mut i: usize = from;
    while i < v.len()
        invariant
            from <= i <= v@.len(),
            forall|j: int| from <= j < i ==> is_digit(#[trigger] v@[j]),
        decreases v@.len() - i,
    {
        if !('0' <= v[i] && v[i] <= '9') {
            assert(v@.subrange(from as int, v@.len() as int)[i - from] == v@[i as int]);
            return false;
        }
        i = i + 1;
    }
    assert forall|j: int| 0 <= j < v@.len() - from implies is_digit(#[trigger] v@.subrange(from as int, v@.len() as int)[j]) by {
        assert(v@.subrange(from as int, v@.len() as int)[j] == v@[from + j]);
    }
    true
}

/// ASCII lower-casing of one character (`to_ascii_lowercase`).
pub open spec fn lower(c: char) -> char {
    if 'A' <= c <= 'Z' {
        ((c as u32) + 32) as char
    } else {
        c
    }
}

pub fn to_lower(c: char) -> (r: char)
    ensures
        r == lower(c),
{
    if 'A' <= c && c <= 'Z' {
        let b: u8 = (c as u32 + 32) as u8;
        b as char
    } else {
        c
    }
}

/// The ASCII character with code `b`.
pub fn char_from_ascii(b: u8) -> (c: char)
    requires
        b < 0x80,
    ensures
        c as u32 == b as u32,
        c == (b as u32) as char,
{
    b as char
}

// ---------------------------------------------------------------------------
// Trimming
// ---------------------------------------------------------------------------

/// Number of leading whitespace characters of `s`.
pub open spec fn lead_ws(s: Seq<char>) -> nat
    decreases s.len(),
{
    if s.len() == 0 {
        0
    } else if is_ws(s[0]) {
        1 + lead_ws(s.drop_first())
    } else {
        0
    }
}

/// Number of trailing whitespace characters of `s`.
pub open spec fn trail_ws(s: Seq<char>) -> nat
    decreases s.len(),
{
    if s.len() == 0 {
        0
    } else if is_ws(s.last()) {
        1 + trail_ws(s.drop_last())
    } else {
        0
    }
}

/// `str::trim`: `s` without leading and trailing whitespace.
pub open spec fn trim(s: Seq<char>) -> Seq<char> {
    if lead_ws(s) == s.len() {
        Seq::empty()
    } else {
        s.subrange(lead_ws(s) as int, s.len() - trail_ws(s))
    }
}

pub proof fn lemma_lead_ws(s: Seq<char>, i: int)
    requires
        0 <= i <= s.len(),
        forall|j: int| 0 <= j < i ==> is_ws(#[trigger] s[j]),
        i == s.len() || !is_ws(s[i]),
    ensures
        lead_ws(s) == i,
    decreases i,
{
    if i > 0 {
        let t = s.drop_first();
        assert forall|j: int| 0 <= j < i - 1 implies is_ws(#[trigger] t[j]) by {
            assert(t[j] == s[j + 1]);
        }
        lemma_lead_ws(t, i - 1);
    }
}

pub proof fn lemma_trail_ws(s: Seq<char>, i: int)
    requires
        0 <= i <= s.len(),
        forall|j: int| s.len() - i <= j < s.len() ==> is_ws(#[trigger] s[j]),
        i == s.len() || !is_ws(s[s.len() - 1 - i]),
    ensures
        trail_ws(s) == i,
    decreases i,
{
    if i > 0 {
        let t = s.drop_last();
        assert forall|j: int| t.len() - (i - 1) <= j < t.len() implies is_ws(#[trigger] t[j]) by {
            assert(t[j] == s[j]);
        }
        lemma_trail_ws(t, i - 1);
    }
}

pub proof fn lemma_lead_ws_props(s: Seq<char>)
    ensures
        lead_ws(s) <= s.len(),
        forall|j: int| 0 <= j < lead_ws(s) ==> is_ws(#[trigger] s[j]),
        lead_ws(s) < s.len() ==> !is_ws(s[lead_ws(s) as int]),
    decreases s.len(),
{
    if s.len() > 0 && is_ws(s[0]) {
        let t = s.drop_first();
        lemma_lead_ws_props(t);
        assert forall|j: int| 0 <= j < lead_ws(s) implies is_ws(#[trigger] s[j]) by {
            if j > 0 {
                assert(s[j] == t[j - 1]);
            }
        }
    }
}

pub proof fn lemma_trail_ws_props(s: Seq<char>)
    ensures
        trail_ws(s) <= s.len(),
        forall|j: int| s.len() - trail_ws(s) <= j < s.len() ==> is_ws(#[trigger] s[j]),
        trail_ws(s) < s.len() ==> !is_ws(s[s.len() - 1 - trail_ws(s)]),
    decreases s.len(),
{
    if s.len() > 0 && is_ws(s.last()) {
        let t = s.drop_last();
        lemma_trail_ws_props(t);
        assert forall|j: int| s.len() - trail_ws(s) <= j < s.len() implies is_ws(#[trigger] s[j]) by {
            if j < s.len() - 1 {
                assert(s[j] == t[j]);
            }
        }
    }
}

/// Trimming twice trims nothing more.
pub proof fn lemma_trim_idempotent(s: Seq<char>)
    ensures
        trim(trim(s)) == trim(s),
{
    lemma_lead_ws_props(s);
    lemma_trail_ws_props(s);
    let t = trim(s);
    if t.len() > 0 {
        let lo = lead_ws(s) as int;
        let hi = s.len() - trail_ws(s);
        assert(lo < hi) by {
            if trail_ws(s) > s.len() - lo - 1 {
                assert(is_ws(s[lo]));
            }
        }
        lemma_lead_ws(t, 0);
        lemma_trail_ws(t, 0);
        assert(t.subrange(0, t.len() as int) =~= t);
    } else {
        assert(lead_ws(t) == 0);
    }
}

/// Bounds of the trimmed part of `s`: `trim(s) == s[lo..hi]`.
pub fn trim_range(s: &Vec<char>) -> (r: (usize, usize))
    ensures
        r.0 <= r.1 <= s@.len(),
        s@.subrange(r.0 as int, r.1 as int) == trim(s@),
        r.0 == lead_ws(s@),
        r.0 < r.1 ==> r.1 == s@.len() - trail_ws(s@),
{
    let mut lo: usize = 0;
    while lo < s.len() && is_whitespace(s[lo])
        invariant
            lo <= s@.len(),
            forall|j: int| 0 <= j < lo ==> is_ws(#[trigger] s@[j]),
        decreases s@.len() - lo,
    {
        lo = lo + 1;
    }
    proof {
        lemma_lead_ws(s@, lo as int);
    }
    if lo == s.len() {
        return (lo, lo);
    }
    let mut hi: usize = s.len();
    while hi > lo && is_whitespace(s[hi - 1])
        invariant
            lo < s@.len(),
            !is_ws(s@[lo as int]),
            lo <= hi <= s@.len(),
            forall|j: int| hi <= j < s@.len() ==> is_ws(#[trigger] s@[j]),
        decreases hi,
    {
        hi = hi - 1;
    }
    proof {
        lemma_trail_ws(s@, s@.len() - hi);
    }
    (lo, hi)
}

/// Number of trailing `c` characters of `s`.
pub open spec fn trail_count(s: Seq<char>, c: char) -> nat
    decreases s.len(),
{
    if s.len() > 0 && s.last() == c {
        1 + trail_count(s.drop_last(), c)
    } else {
        0
    }
}

pub proof fn lemma_trail_count(s: Seq<char>, c: char, i: int)
    requires
        0 <= i <= s.len(),
        forall|j: int| s.len() - i <= j < s.len() ==> #[trigger] s[j] == c,
        i == s.len() || s[s.len() - 1 - i] != c,
    ensures
        trail_count(s, c) == i,
    decreases i,
{
    if i > 0 {
        let t = s.drop_last();
        assert forall|j: int| t.len() - (i - 1) <= j < t.len() implies #[trigger] t[j] == c by {
            assert(t[j] == s[j]);
        }
        lemma_trail_count(t, c, i - 1);
    }
}

/// `str::trim_end_matches(c)`: `s` without its trailing `c`s.
pub fn trim_end_char(s: &str, c: char) -> (r: String)
    ensures
        r@ == s@.take(s@.len() - trail_count(s@, c)),
{
    let v = chars_of(s);
    let mut hi: usize = v.len();
    while hi > 0 && v[hi - 1] == c
        invariant
            hi <= v@.len(),
            forall|j: int| hi <= j < v@.len() ==> #[trigger] v@[j] == c,
        decreases hi,
    {
        hi = hi - 1;
    }
    proof {
        lemma_trail_count(v@, c, v@.len() - hi);
    }
    string_of_range(&v, 0, hi)
}

/// `str::trim_end`: `s` without trailing whitespace.
pub fn trim_end(s: &str) -> (r: String)
    ensures
        r@ == s@.take(s@.len() - trail_ws(s@)),
{
    let v = chars_of(s);
    let mut hi: usize = v.len();
    while hi > 0 && is_whitespace(v[hi - 1])
        invariant
            hi <= v@.len(),
            forall|j: int| hi <= j < v@.len() ==> is_ws(#[trigger] v@[j]),
        decreases hi,
    {
        hi = hi - 1;
    }
    proof {
        lemma_trail_ws(v@, v@.len() - hi);
    }
    string_of_range(&v, 0, hi)
}

// ---------------------------------------------------------------------------
// Building strings
// ---------------------------------------------------------------------------

/// Appends one character (`String::push`).
#[verifier::external_body]
pub(crate) fn push_char(s: &mut String, c: char)
    ensures
        final(s)@ == old(s)@.push(c),
{
    s.push(c);
}

/// Appends a string slice, through vstd's specified `String::append`.
pub(crate) fn push_str(s: &mut String, t: &str)
    ensures
        final(s)@ == old(s)@ + t@,
{
    s.append(t);
}

/// What `format!("{:?}", s)` renders for a string: Rust's quoted and
/// escaped form of it.
pub uninterp spec fn debug_text(s: Seq<char>) -> Seq<char>;

/// `<str as Debug>::fmt`, through `format!("{:?}")`.
///
/// Claims only that the result is [`debug_text`] of the argument: the quoting
/// and escaping rules are std's and are not restated here.
#[verifier::external_body]
pub(crate) fn debug_str(s: &str) -> (r: String)
    ensures
        r@ == debug_text(s@),
{
    format!("{:?}", s)
}

/// Decimal text of an integer, with a leading `-` when negative.
pub open spec fn int_text(n: int) -> Seq<char> {
    if n < 0 {
        seq!['-'] + decimal((-n) as nat)
    } else {
        decimal(n as nat)
    }
}

/// Appends the decimal text of `n`.
pub fn push_int(out: &mut String, n: i64)
    ensures
        final(out)@ == old(out)@ + int_text(n as int),
{
    if n < 0 {
        push_char(out, '-');
        let m: u64 = if n == i64::MIN {
            0x8000_0000_0000_0000
        } else {
            (-n) as u64
        };
        push_decimal(out, m);
        assert(out@ =~= old(out)@ + int_text(n as int));
    } else {
        push_decimal(out, n as u64);
    }
}

/// The characters of `s`, in order.
pub fn chars_of(s: &str) -> (v: Vec<char>)
    ensures
        v@ == s@,
{
    let mut v: Vec<char> = Vec::new();
    for c in it: s.chars()
        invariant
            it.seq() == s@,
            v@ == it.seq().take(it.index() as int),
    {
        v.push(c);
    }
    v
}

/// Appends the characters `v[lo..hi]` to `out`.
pub fn push_range(out: &mut String, v: &Vec<char>, lo: usize, hi: usize)
    requires
        lo <= hi <= v@.len(),
    ensures
        final(out)@ == old(out)@ + v@.subrange(lo as int, hi as int),
{
    let mut i: usize = lo;
    while i < hi
        invariant
            lo <= i <= hi <= v@.len(),
            out@ == old(out)@ + v@.subrange(lo as int, i as int),
        decreases hi - i,
    {
        push_char(out, v[i]);
        assert(v@.subrange(lo as int, i + 1) =~= v@.subrange(lo as int, i as int).push(v@[i as int]));
        i = i + 1;
    }
}

/// A string holding the characters `v[lo..hi]`.
pub fn string_of_range(v: &Vec<char>, lo: usize, hi: usize) -> (s: String)
    requires
        lo <= hi <= v@.len(),
    ensures
        s@ == v@.subrange(lo as int, hi as int),
{
    let mut s = String::new();
    push_range(&mut s, v, lo, hi);
    s
}

/// A string holding the characters of `v`.
pub fn string_of(v: &Vec<char>) -> (s: String)
    ensures
        s@ == v@,
{
    let s = string_of_range(v, 0, v.len());
    assert(v@.subrange(0, v@.len() as int) =~= v@);
    s
}

/// A fresh copy of `s`.
pub fn owned(s: &str) -> (r: String)
    ensures
        r@ == s@,
{
    let mut r = String::new();
    push_str(&mut r, s);
    r
}

/// `str::get(..n)`: the characters before byte `n`, when `n` falls between
/// two characters.
pub fn get_prefix(s: &str, n: usize) -> (r: Option<String>)
    ensures
        match r {
            Some(t) => is_boundary(s@, n as int) && t@ == byte_prefix(s@, n as int),
            None => !is_boundary(s@, n as int),
        },
{
    let v = chars_of(s);
    match char_index_at_byte(&v, n) {
        Some(k) => {
            proof {
                lemma_byte_prefix(v@, k as int);
            }
            let t = string_of_range(&v, 0, k);
            assert(v@.subrange(0, k as int) =~= v@.take(k as int));
            Some(t)
        },
        None => None,
    }
}

/// The first 8 bytes of an id when they end between characters, else the
/// whole id (`id.get(..8).unwrap_or(id)`).
pub open spec fn short8(id: Seq<char>) -> Seq<char> {
    if is_boundary(id, 8) {
        byte_prefix(id, 8)
    } else {
        id
    }
}

pub fn short_id8(id: &str) -> (r: String)
    ensures
        r@ == short8(id@),
{
    match get_prefix(id, 8) {
        Some(t) => t,
        None => owned(id),
    }
}

/// `n` spaces.
pub open spec fn spaces(n: nat) -> Seq<char> {
    Seq::new(n, |i: int| ' ')
}

/// `s` padded with spaces on the right to `width` characters.
pub open spec fn padded(s: Seq<char>, width: nat) -> Seq<char> {
    if s.len() >= width {
        s
    } else {
        s + spaces((width - s.len()) as nat)
    }
}

/// Appends `n` spaces.
pub fn push_spaces(out: &mut String, n: usize)
    ensures
        final(out)@ == old(out)@ + spaces(n as nat),
{
    let mut i: usize = 0;
    while i < n
        invariant
            i <= n,
            out@ == old(out)@ + spaces(i as nat),
        decreases n - i,
    {
        push_char(out, ' ');
        assert(spaces((i + 1) as nat) =~= spaces(i as nat).push(' '));
        i = i + 1;
    }
}

// ---------------------------------------------------------------------------
// Words and lines
// ---------------------------------------------------------------------------

/// `split_whitespace().join(" ")`: the words of `s` separated by single
/// spaces. Read left to right: whitespace is dropped, and a character that
/// follows whitespace after an earlier word is preceded by one space.
pub open spec fn collapsed(s: Seq<char>) -> Seq<char>
    decreases s.len(),
{
    if s.len() == 0 {
        Seq::empty()
    } else {
        let p = s.drop_last();
        let c = s.last();
        if is_ws(c) {
            collapsed(p)
        } else if collapsed(p).len() > 0 && is_ws(p.last()) {
            collapsed(p) + seq![' ', c]
        } else {
            collapsed(p).push(c)
        }
    }
}

/// Collapsed text is one line: it neither starts nor ends with whitespace,
/// and its only whitespace is single spaces between other characters.
pub proof fn law_collapsed_shape(s: Seq<char>)
    ensures
        collapsed(s).len() > 0 ==> !is_ws(collapsed(s)[0]) && !is_ws(collapsed(s).last()),
        forall|i: int|
            0 <= i < collapsed(s).len() && is_ws(#[trigger] collapsed(s)[i]) ==> {
                &&& collapsed(s)[i] == ' '
                &&& 0 < i < collapsed(s).len() - 1
                &&& !is_ws(collapsed(s)[i - 1])
                &&& !is_ws(collapsed(s)[i + 1])
            },
    decreases s.len(),
{
    if s.len() > 0 {
        let p = s.drop_last();
        let c = s.last();
        let q = collapsed(p);
        law_collapsed_shape(p);
        let r = collapsed(s);
        if !is_ws(c) {
            assert(r[r.len() - 1] == c);
            if q.len() > 0 {
                assert(r[0] == q[0]);
            }
            assert forall|i: int| 0 <= i < r.len() && is_ws(#[trigger] r[i]) implies {
                &&& r[i] == ' '
                &&& 0 < i < r.len() - 1
                &&& !is_ws(r[i - 1])
                &&& !is_ws(r[i + 1])
            } by {
                if i < q.len() {
                    assert(r[i] == q[i]);
                    assert(r[i - 1] == q[i - 1]);
                    assert(r[i + 1] == q[i + 1]);
                } else if q.len() > 0 && is_ws(p.last()) && i == q.len() {
                    assert(r[i] == ' ');
                    assert(r[i - 1] == q[q.len() - 1]);
                    assert(r[i + 1] == c);
                }
            }
        }
    }
}

pub fn collapse_ws(s: &str) -> (r: String)
    ensures
        r@ == collapsed(s@),
{
    let v = chars_of(s);
    let mut out = String::new();
    let mut started = false;
    let mut i: usize = 0;
    while i < v.len()
        invariant
            i <= v@.len(),
            out@ == collapsed(v@.take(i as int)),
            started == (out@.len() > 0),
        decreases v@.len() - i,
    {
        let c = v[i];
        proof {
            assert(v@.take(i + 1).drop_last() =~= v@.take(i as int));
            assert(v@.take(i + 1).last() == c);
            if i > 0 {
                assert(v@.take(i as int).last() == v@[i - 1]);
            }
        }
        if !is_whitespace(c) {
            if started && is_whitespace(v[i - 1]) {
                push_char(&mut out, ' ');
                push_char(&mut out, c);
                assert(out@ =~= collapsed(v@.take(i as int)) + seq![' ', c]);
            } else {
                push_char(&mut out, c);
            }
            started = true;
        }
        i = i + 1;
    }
    assert(v@.take(v@.len() as int) =~= v@);
    out
}

/// Index of the first `c` in `s`, or its length when there is none.
pub open spec fn index_or_len(s: Seq<char>, c: char) -> int
    decreases s.len(),
{
    if s.len() == 0 {
        0
    } else if s[0] == c {
        0
    } else {
        1 + index_or_len(s.drop_first(), c)
    }
}

/// A line cut at `\n`, without the `\r` of a `\r\n` ending.
pub open spec fn strip_cr(line: Seq<char>) -> Seq<char> {
    if line.len() > 0 && line.last() == '\r' {
        line.drop_last()
    } else {
        line
    }
}

/// `str::lines`: split at `\n` or `\r\n`; a final line ending adds no empty
/// line, and a `\r` not followed by `\n` stays in its line.
pub open spec fn lines(s: Seq<char>) -> Seq<Seq<char>>
    decreases s.len(),
{
    if s.len() == 0 {
        Seq::empty()
    } else {
        let i = index_or_len(s, '\n');
        if i < 0 || i >= s.len() {
            seq![s]
        } else {
            seq![strip_cr(s.take(i))] + lines(s.skip(i + 1))
        }
    }
}

proof fn lemma_index_or_len(s: Seq<char>, c: char, i: int)
    requires
        0 <= i <= s.len(),
        forall|j: int| 0 <= j < i ==> s[j] != c,
        i == s.len() || s[i] == c,
    ensures
        index_or_len(s, c) == i,
    decreases s.len(),
{
    if s.len() > 0 && s[0] != c {
        assert forall|j: int| 0 <= j < i - 1 implies s.drop_first()[j] != c by {
            assert(s.drop_first()[j] == s[j + 1]);
        }
        lemma_index_or_len(s.drop_first(), c, i - 1);
    }
}

/// The lines of `s` (see [`lines`]).
pub fn split_lines(s: &str) -> (r: Vec<String>)
    ensures
        r@.map_values(|x: String| x@) == lines(s@),
{
    let v = chars_of(s);
    let ghost full = v@;
    let mut out: Vec<String> = Vec::new();
    let mut start: usize = 0;
    assert(full.skip(0) =~= full);
    while start < v.len()
        invariant
            full == v@,
            start <= v@.len(),
            out@.map_values(|x: String| x@) + lines(full.skip(start as int)) == lines(full),
        decreases v@.len() - start,
    {
        let ghost rest = full.skip(start as int);
        let mut end: usize = start;
        while end < v.len() && v[end] != '\n'
            invariant
                start <= end <= v@.len(),
                forall|j: int| start <= j < end ==> v@[j] != '\n',
            decreases v@.len() - end,
        {
            end = end + 1;
        }
        proof {
            assert forall|j: int| 0 <= j < end - start implies rest[j] != '\n' by {
                assert(rest[j] == full[start + j]);
            }
            if end < v@.len() {
                assert(rest[end - start] == full[end as int]);
            }
            lemma_index_or_len(rest, '\n', end - start);
        }
        let ghost before = out@.map_values(|x: String| x@);
        if end == v.len() {
            out.push(string_of_range(&v, start, end));
            proof {
                assert(rest =~= full.subrange(start as int, end as int));
                assert(out@.map_values(|x: String| x@) =~= before.push(rest));
                assert(full.skip(end as int) =~= Seq::<char>::empty());
            }
            start = end;
        } else {
            let stop: usize = if end > start && v[end - 1] == '\r' {
                end - 1
            } else {
                end
            };
            out.push(string_of_range(&v, start, stop));
            proof {
                assert(rest.take(end - start) =~= full.subrange(start as int, end as int));
                assert(strip_cr(rest.take(end - start)) =~= full.subrange(start as int, stop as int));
                assert(rest.skip(end - start + 1) =~= full.skip(end + 1));
                assert(out@.map_values(|x: String| x@) =~= before.push(strip_cr(rest.take(end - start))));
                assert(before.push(strip_cr(rest.take(end - start))) + lines(full.skip(end + 1)) =~= before
                    + (seq![strip_cr(rest.take(end - start))] + lines(rest.skip(end - start + 1))));
            }
            start = end + 1;
        }
    }
    proof {
        assert(full.skip(start as int) =~= Seq::<char>::empty());
        assert(out@.map_values(|x: String| x@) + Seq::<Seq<char>>::empty() =~= out@.map_values(
            |x: String| x@,
        ));
    }
    out
}

/// `str::split(c)`: the pieces between the `c`s (at least one, possibly empty).
pub open spec fn split_on(s: Seq<char>, c: char) -> Seq<Seq<char>>
    decreases s.len(),
{
    let i = index_or_len(s, c);
    if i < 0 || i >= s.len() {
        seq![s]
    } else {
        seq![s.take(i)] + split_on(s.skip(i + 1), c)
    }
}

/// No piece of a split is longer than what was split.
pub proof fn lemma_split_piece_len(s: Seq<char>, c: char, k: int)
    requires
        0 <= k < split_on(s, c).len(),
    ensures
        split_on(s, c)[k].len() <= s.len(),
    decreases s.len(),
{
    let i = index_or_len(s, c);
    if !(i < 0 || i >= s.len()) && k > 0 {
        lemma_split_piece_len(s.skip(i + 1), c, k - 1);
    }
}

/// The pieces of `s` between the `c`s (see [`split_on`]).
pub fn split_char(s: &str, c: char) -> (r: Vec<String>)
    ensures
        r@.map_values(|x: String| x@) == split_on(s@, c),
{
    let v = chars_of(s);
    let ghost full = v@;
    let mut out: Vec<String> = Vec::new();
    let mut start: usize = 0;
    assert(full.skip(0) =~= full);
    loop
        invariant
            full == v@,
            full == s@,
            start <= v@.len(),
            out@.map_values(|x: String| x@) + split_on(full.skip(start as int), c) == split_on(full, c),
        decreases v@.len() - start,
    {
        let ghost rest = full.skip(start as int);
        let mut end: usize = start;
        while end < v.len() && v[end] != c
            invariant
                start <= end <= v@.len(),
                forall|j: int| start <= j < end ==> v@[j] != c,
            decreases v@.len() - end,
        {
            end = end + 1;
        }
        proof {
            assert forall|j: int| 0 <= j < end - start implies rest[j] != c by {
                assert(rest[j] == full[start + j]);
            }
            if end < v@.len() {
                assert(rest[end - start] == full[end as int]);
            }
            lemma_index_or_len(rest, c, end - start);
        }
        let ghost before = out@.map_values(|x: String| x@);
        let piece = string_of_range(&v, start, end);
        out.push(piece);
        proof {
            assert(out@.map_values(|x: String| x@) =~= before.push(piece@));
        }
        if end == v.len() {
            proof {
                assert(rest =~= full.subrange(start as int, end as int));
                assert(split_on(rest, c) == seq![rest]);
                assert(before.push(piece@) =~= before + split_on(rest, c));
                assert(out@.map_values(|x: String| x@) == split_on(full, c));
                assert(full == s@);
            }
            return out;
        }
        proof {
            assert(rest.take(end - start) =~= full.subrange(start as int, end as int));
            assert(rest.skip(end - start + 1) =~= full.skip(end + 1));
            assert(before.push(piece@) + split_on(full.skip(end + 1), c) =~= before + (seq![
                rest.take(end - start),
            ] + split_on(rest.skip(end - start + 1), c)));
        }
        start = end + 1;
    }
}

/// The strings of `parts` separated by `sep` (`join`).
pub open spec fn joined(parts: Seq<Seq<char>>, sep: Seq<char>) -> Seq<char>
    decreases parts.len(),
{
    if parts.len() == 0 {
        Seq::empty()
    } else if parts.len() == 1 {
        parts[0]
    } else {
        joined(parts.drop_last(), sep) + sep + parts.last()
    }
}

pub fn join_strings(parts: &Vec<String>, sep: &str) -> (r: String)
    ensures
        r@ == joined(parts@.map_values(|x: String| x@), sep@),
{
    let ghost pv = parts@.map_values(|x: String| x@);
    let mut out = String::new();
    let mut i: usize = 0;
    while i < parts.len()
        invariant
            pv == parts@.map_values(|x: String| x@),
            i <= parts@.len(),
            out@ == joined(pv.take(i as int), sep@),
        decreases parts@.len() - i,
    {
        proof {
            assert(pv.take(i + 1).drop_last() =~= pv.take(i as int));
            assert(pv.take(i + 1).last() == parts@[i as int]@);
        }
        if i > 0 {
            push_str(&mut out, sep);
        } else {
            assert(pv.take(1)[0] == parts@[0]@);
            assert(out@ == Seq::<char>::empty());
        }
        push_str(&mut out, parts[i].as_str());
        assert(out@ =~= joined(pv.take(i + 1), sep@));
        i = i + 1;
    }
    assert(pv.take(i as int) =~= pv);
    out
}

// ---------------------------------------------------------------------------
// Comparing and searching
// ---------------------------------------------------------------------------

/// Equality of two strings.
pub fn str_eq(a: &str, b: &str) -> (r: bool)
    ensures
        r == (a@ == b@),
{
    let x = chars_of(a);
    let y = chars_of(b);
    seq_eq(&x, &y)
}

pub fn seq_eq(x: &Vec<char>, y: &Vec<char>) -> (r: bool)
    ensures
        r == (x@ == y@),
{
    if x.len() != y.len() {
        return false;
    }
    let mut i: usize = 0;
    while i < x.len()
        invariant
            x@.len() == y@.len(),
            i <= x@.len(),
            forall|j: int| 0 <= j < i ==> x@[j] == y@[j],
        decreases x@.len() - i,
    {
        if x[i] != y[i] {
            return false;
        }
        i = i + 1;
    }
    assert(x@ =~= y@);
    true
}

/// `needle` occurs in `hay` starting at character `i`.
pub open spec fn occurs_at(hay: Seq<char>, needle: Seq<char>, i: int) -> bool {
    0 <= i && i + needle.len() <= hay.len() && hay.subrange(i, i + needle.len()) == needle
}

pub open spec fn contains(hay: Seq<char>, needle: Seq<char>) -> bool {
    exists|i: int| occurs_at(hay, needle, i)
}

pub open spec fn starts_with(s: Seq<char>, p: Seq<char>) -> bool {
    occurs_at(s, p, 0)
}

pub open spec fn ends_with(s: Seq<char>, p: Seq<char>) -> bool {
    occurs_at(s, p, s.len() - p.len())
}

/// Whether `needle` occurs in `hay` at character `i` (no allocation).
pub fn occurs_at_exec(hay: &Vec<char>, needle: &Vec<char>, i: usize) -> (r: bool)
    ensures
        r == occurs_at(hay@, needle@, i as int),
{
    if i > hay.len() || needle.len() > hay.len() - i {
        return false;
    }
    let mut j: usize = 0;
    while j < needle.len()
        invariant
            i + needle@.len() <= hay@.len(),
            i + needle.len() <= hay.len(),
            j <= needle@.len(),
            forall|k: int| 0 <= k < j ==> hay@[i + k] == needle@[k],
        decreases needle@.len() - j,
    {
        if hay[i + j] != needle[j] {
            assert(hay@.subrange(i as int, i + needle@.len())[j as int] != needle@[j as int]);
            return false;
        }
        j = j + 1;
    }
    assert(hay@.subrange(i as int, i + needle@.len()) =~= needle@);
    true
}

/// First character index at or after `from` where `needle` occurs in `hay`.
pub fn find_from(hay: &Vec<char>, needle: &Vec<char>, from: usize) -> (r: Option<usize>)
    ensures
        match r {
            Some(i) => from <= i && occurs_at(hay@, needle@, i as int) && forall|j: int|
                from <= j < i ==> !occurs_at(hay@, needle@, j),
            None => forall|j: int| from <= j ==> !occurs_at(hay@, needle@, j),
        },
{
    if from > hay.len() {
        return None;
    }
    let mut i: usize = from;
    loop
        invariant
            from <= i <= hay@.len(),
            forall|j: int| from <= j < i ==> !occurs_at(hay@, needle@, j),
        decreases hay@.len() - i,
    {
        if occurs_at_exec(hay, needle, i) {
            return Some(i);
        }
        if i == hay.len() {
            return None;
        }
        i = i + 1;
    }
}

pub fn contains_exec(hay: &Vec<char>, needle: &Vec<char>) -> (r: bool)
    ensures
        r == contains(hay@, needle@),
{
    match find_from(hay, needle, 0) {
        Some(i) => true,
        None => false,
    }
}

/// Whether `needle` occurs in `hay` (`str::contains`).
pub fn contains_str(hay: &str, needle: &str) -> (r: bool)
    ensures
        r == contains(hay@, needle@),
{
    let h = chars_of(hay);
    let n = chars_of(needle);
    contains_exec(&h, &n)
}

/// `s` with every `T` replaced by a space.
pub open spec fn t_to_space(s: Seq<char>) -> Seq<char> {
    s.map_values(|c: char| if c == 'T' { ' ' } else { c })
}

/// `str::replace('T', " ")`.
pub fn replace_t(s: &str) -> (r: String)
    ensures
        r@ == t_to_space(s@),
{
    let v = chars_of(s);
    let mut out = String::new();
    let mut i: usize = 0;
    while i < v.len()
        invariant
            i <= v@.len(),
            out@ == t_to_space(v@.take(i as int)),
        decreases v@.len() - i,
    {
        let c = v[i];
        push_char(&mut out, if c == 'T' { ' ' } else { c });
        assert(t_to_space(v@.take(i + 1)) =~= t_to_space(v@.take(i as int)).push(
            if v@[i as int] == 'T' { ' ' } else { v@[i as int] },
        ));
        i = i + 1;
    }
    assert(v@.take(v@.len() as int) =~= v@);
    out
}

/// The first `n` characters of `s` (all of it when shorter).
pub fn take_chars(s: &str, n: usize) -> (r: String)
    ensures
        r@ == s@.take(if s@.len() < n { s@.len() as int } else { n as int }),
{
    let v = chars_of(s);
    let k: usize = if v.len() < n { v.len() } else { n };
    string_of_range(&v, 0, k)
}

/// Lexicographic order on characters, the order of `str` comparison
/// (UTF-8 byte order and code point order agree).
pub open spec fn seq_lt(a: Seq<char>, b: Seq<char>) -> bool
    decreases a.len(),
{
    if a.len() == 0 {
        b.len() > 0
    } else if b.len() == 0 {
        false
    } else if a[0] != b[0] {
        (a[0] as u32) < (b[0] as u32)
    } else {
        seq_lt(a.drop_first(), b.drop_first())
    }
}

pub open spec fn seq_le(a: Seq<char>, b: Seq<char>) -> bool {
    seq_lt(a, b) || a == b
}

/// `a <= b` on strings.
pub fn str_le(a: &str, b: &str) -> (r: bool)
    ensures
        r == seq_le(a@, b@),
{
    let x = chars_of(a);
    let y = chars_of(b);
    let lt = range_lt(&x, 0, x.len(), &y, 0, y.len());
    assert(x@.subrange(0, x@.len() as int) =~= a@);
    assert(y@.subrange(0, y@.len() as int) =~= b@);
    lt || seq_eq(&x, &y)
}

/// `a < b` on the ranges `a[alo..ahi]` and `b[blo..bhi]`.
pub fn range_lt(a: &Vec<char>, alo: usize, ahi: usize, b: &Vec<char>, blo: usize, bhi: usize) -> (r:
    bool)
    requires
        alo <= ahi <= a@.len(),
        blo <= bhi <= b@.len(),
    ensures
        r == seq_lt(a@.subrange(alo as int, ahi as int), b@.subrange(blo as int, bhi as int)),
    decreases ahi - alo,
{
    let ghost x = a@.subrange(alo as int, ahi as int);
    let ghost y = b@.subrange(blo as int, bhi as int);
    if alo == ahi {
        return blo < bhi;
    }
    if blo == bhi {
        return false;
    }
    if a[alo] != b[blo] {
        return (a[alo] as u32) < (b[blo] as u32);
    }
    assert(x.drop_first() =~= a@.subrange(alo + 1, ahi as int));
    assert(y.drop_first() =~= b@.subrange(blo + 1, bhi as int));
    range_lt(a, alo + 1, ahi, b, blo + 1, bhi)
}

/// Distinct characters have distinct code points.
pub proof fn lemma_char_u32_injective(a: char, b: char)
    ensures
        (a as u32) == (b as u32) ==> a == b,
{
    if (a as u32) == (b as u32) {
        vstd::utf8::char_u32_cast(a, a as u32);
        vstd::utf8::char_u32_cast(b, b as u32);
    }
}

pub proof fn lemma_seq_lt_irrefl(a: Seq<char>)
    ensures
        !seq_lt(a, a),
    decreases a.len(),
{
    if a.len() > 0 {
        lemma_seq_lt_irrefl(a.drop_first());
    }
}

pub proof fn lemma_seq_lt_total(a: Seq<char>, b: Seq<char>)
    ensures
        seq_lt(a, b) || seq_lt(b, a) || a == b,
    decreases a.len(),
{
    if a.len() > 0 && b.len() > 0 && a[0] == b[0] {
        lemma_seq_lt_total(a.drop_first(), b.drop_first());
        if a.drop_first() == b.drop_first() {
            assert(a =~= seq![a[0]] + a.drop_first());
            assert(b =~= seq![b[0]] + b.drop_first());
            assert(a =~= b);
        }
    } else if a.len() == 0 && b.len() == 0 {
        assert(a =~= b);
    } else if a.len() > 0 && b.len() > 0 {
        lemma_char_u32_injective(a[0], b[0]);
    }
}

pub proof fn lemma_seq_lt_trans(a: Seq<char>, b: Seq<char>, c: Seq<char>)
    requires
        seq_lt(a, b),
        seq_lt(b, c),
    ensures
        seq_lt(a, c),
    decreases a.len(),
{
    if a.len() > 0 && b.len() > 0 && c.len() > 0 {
        if a[0] == b[0] && b[0] == c[0] {
            lemma_seq_lt_trans(a.drop_first(), b.drop_first(), c.drop_first());
        } else {
            lemma_char_u32_injective(a[0], c[0]);
        }
    }
}

pub proof fn lemma_seq_lt_asym(a: Seq<char>, b: Seq<char>)
    ensures
        !(seq_lt(a, b) && seq_lt(b, a)),
    decreases a.len(),
{
    if a.len() > 0 && b.len() > 0 && a[0] == b[0] {
        lemma_seq_lt_asym(a.drop_first(), b.drop_first());
    }
}

// ---------------------------------------------------------------------------
// Decimal rendering
// ---------------------------------------------------------------------------

/// Decimal digits of `n`, without leading zeros (`"0"` for zero).
pub open spec fn decimal(n: nat) -> Seq<char>
    decreases n,
{
    if n < 10 {
        seq![digit_char(n)]
    } else {
        decimal(n / 10).push(digit_char(n % 10))
    }
}

pub open spec fn digit_char(d: nat) -> char {
    ((d % 10) + 48) as char
}

/// Decimal digits of `n`, left-padded with zeros to at least `w` characters.
pub open spec fn zero_padded(n: nat, w: nat) -> Seq<char> {
    let d = decimal(n);
    if d.len() >= w {
        d
    } else {
        Seq::new((w - d.len()) as nat, |i: int| '0') + d
    }
}

pub fn digit(d: u64) -> (c: char)
    requires
        d < 10,
    ensures
        c == digit_char(d as nat),
{
    let u: u8 = (d as u8) + 48;
    u as char
}

/// Appends the decimal digits of `n`.
pub fn push_decimal(out: &mut String, n: u64)
    ensures
        final(out)@ == old(out)@ + decimal(n as nat),
    decreases n,
{
    if n < 10 {
        push_char(out, digit(n));
        assert(decimal(n as nat) =~= seq![digit_char(n as nat)]);
    } else {
        push_decimal(out, n / 10);
        push_char(out, digit(n % 10));
        assert(old(out)@ + decimal(n as nat) =~= old(out)@ + decimal((n / 10) as nat) + seq![
            digit_char((n % 10) as nat),
        ]);
    }
}

pub proof fn lemma_decimal_len(n: nat)
    ensures
        decimal(n).len() >= 1,
        n < 10 ==> decimal(n).len() == 1,
        10 <= n < 100 ==> decimal(n).len() == 2,
        100 <= n < 1000 ==> decimal(n).len() == 3,
        1000 <= n < 10000 ==> decimal(n).len() == 4,
    decreases n,
{
    if n >= 10 {
        lemma_decimal_len(n / 10);
    }
}

/// Appends `n` left-padded with zeros to `w` characters (`format!("{n:0w$}")`).
pub fn push_padded(out: &mut String, n: u64, w: usize)
    ensures
        final(out)@ == old(out)@ + zero_padded(n as nat, w as nat),
{
    let mut digits = String::new();
    push_decimal(&mut digits, n);
    let dv = chars_of(digits.as_str());
    assert(digits@ =~= decimal(n as nat));
    let ghost before = out@;
    if dv.len() < w {
        let mut i: usize = 0;
        let pad: usize = w - dv.len();
        while i < pad
            invariant
                i <= pad,
                out@ == before + Seq::new(i as nat, |k: int| '0'),
            decreases pad - i,
        {
            push_char(out, '0');
            assert(Seq::new((i + 1) as nat, |k: int| '0') =~= Seq::new(i as nat, |k: int| '0').push(
                '0',
            ));
            i = i + 1;
        }
    }
    push_str(out, digits.as_str());
    assert(out@ =~= before + zero_padded(n as nat, w as nat));
}

/// `n` zero-padded to `w` characters, a minus sign counting in the width
/// (`format!("{n:0w$}")`).
pub open spec fn signed_padded(n: int, w: nat) -> Seq<char> {
    if n < 0 {
        seq!['-'] + zero_padded((-n) as nat, if w >= 1 { (w - 1) as nat } else { 0 })
    } else {
        zero_padded(n as nat, w)
    }
}

pub fn push_signed_padded(out: &mut String, n: i64, w: usize)
    requires
        w >= 1,
        n > i64::MIN,
    ensures
        final(out)@ == old(out)@ + signed_padded(n as int, w as nat),
{
    if n < 0 {
        push_char(out, '-');
        push_padded(out, (-n) as u64, w - 1);
        assert(out@ =~= old(out)@ + signed_padded(n as int, w as nat));
    } else {
        push_padded(out, n as u64, w);
    }
}

} // verus!
