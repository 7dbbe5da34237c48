//! Pattern matching: a literal (case-sensitive, or ASCII case-insensitive) or a
//! regular expression compiled by the `regex` crate.

use vstd::prelude::*;
use crate::text::{
    byte_offset, chars_of, is_boundary, lemma_byte_offset_injective, lemma_byte_offset_full,
    lemma_byte_offset_strict, lemma_utf8_len_concat, lower, occurs_at, owned, to_lower, utf8_len,
    char_index_at_byte, occurs_at_exec, str_len, debug_str, debug_text, push_str,
};

verus! {

broadcast use vstd::string::group_string_axioms;

#[verifier::external_type_specification]
#[verifier::external_body]
pub struct ExRegex(regex::Regex);

/// What `regex::RegexBuilder` says of `pattern` with the given case setting:
/// `None` when it builds, else the text of its error.
pub uninterp spec fn regex_refusal(pattern: Seq<char>, case_insensitive: bool) -> Option<Seq<char>>;

/// Byte range `(start, end)` of the leftmost-first match of `pattern` in `hay`.
pub uninterp spec fn regex_first_match(pattern: Seq<char>, case_insensitive: bool, hay: Seq<char>)
    -> Option<(usize, usize)>;

/// A compiled regular expression together with what it was compiled from.
pub struct RegexMatcher {
    re: regex::Regex,
    pattern: String,
    case_insensitive: bool,
}

impl RegexMatcher {
    pub closed spec fn pattern_view(&self) -> Seq<char> {
        self.pattern@
    }

    pub closed spec fn insensitive(&self) -> bool {
        self.case_insensitive
    }
}

/// `regex::RegexBuilder::new(pattern).case_insensitive(ci).build()`.
///
/// Claims that the build succeeds exactly when [`regex_refusal`] is `None`,
/// that an error's display text is the refusal, and that the matcher keeps
/// the pattern and the case setting it was built from.
#[verifier::external_body]
fn regex_build(pattern: &str, case_insensitive: bool) -> (r: Result<RegexMatcher, String>)
    ensures
        r is Ok <==> regex_refusal(pattern@, case_insensitive) is None,
        r matches Err(e) ==> regex_refusal(pattern@, case_insensitive) == Some(e@),
        r matches Ok(m) ==> m.pattern_view() == pattern@ && m.insensitive() == case_insensitive,
{
    match regex::RegexBuilder::new(pattern).case_insensitive(case_insensitive).build() {
        Ok(re) => Ok(RegexMatcher { re, pattern: pattern.to_string(), case_insensitive }),
        Err(e) => Err(e.to_string()),
    }
}

/// `regex::Regex::find`: the byte range of the first match.
///
/// Claims the result is [`regex_first_match`] of the matcher's pattern, case
/// setting and `hay`, and (as the crate documents for `Match::start` and
/// `Match::end`) that both offsets fall between characters, start first.
#[verifier::external_body]
fn regex_find(m: &RegexMatcher, hay: &str) -> (r: Option<(usize, usize)>)
    ensures
        r == regex_first_match(m.pattern_view(), m.insensitive(), hay@),
        r matches Some((s, e)) ==> s <= e && is_boundary(hay@, s as int) && is_boundary(hay@, e as int),
{
    m.re.find(hay).map(|x| (x.start(), x.end()))
}

/// A search pattern.
pub enum Matcher {
    Literal {
        needle: String,
        /// ASCII-lowercased needle, kept so that case-insensitive search does
        /// not lower it again for every haystack.
        needle_lower: String,
        case_sensitive: bool,
    },
    Regex(RegexMatcher),
}

/// Why a pattern was refused: the pattern and the regex engine's message.
#[derive(Debug)]
pub struct MatcherError {
    pub pattern: String,
    pub reason: String,
}

impl MatcherError {
    /// The message the command line prints for this error.
    pub fn message(&self) -> (r: String)
        ensures
            r@ == "invalid regex "@ + debug_text(self.pattern@) + ": "@ + self.reason@,
    {
        let mut out = owned("invalid regex ");
        let q = debug_str(self.pattern.as_str());
        push_str(&mut out, q.as_str());
        push_str(&mut out, ": ");
        push_str(&mut out, self.reason.as_str());
        out
    }
}

/// ASCII lower-casing of every character of `s`.
pub open spec fn lowered(s: Seq<char>) -> Seq<char> {
    s.map_values(|c: char| lower(c))
}

/// `hay[k..]` starts with a sequence whose ASCII-lowered form is `nl`.
pub open spec fn ci_at(hay: Seq<char>, nl: Seq<char>, k: int) -> bool {
    0 <= k && k + nl.len() <= hay.len() && forall|j: int|
        0 <= j < nl.len() ==> lower(#[trigger] hay[k + j]) == nl[j]
}

/// First character index where `needle` occurs exactly.
pub open spec fn first_exact(hay: Seq<char>, needle: Seq<char>) -> Option<int> {
    if exists|k: int| occurs_at(hay, needle, k) {
        Some(
            choose|k: int|
                occurs_at(hay, needle, k) && forall|j: int| 0 <= j < k ==> !#[trigger] occurs_at(hay, needle, j),
        )
    } else {
        None
    }
}

/// First character index where `nl` occurs ignoring ASCII case.
pub open spec fn first_ci(hay: Seq<char>, nl: Seq<char>) -> Option<int> {
    if exists|k: int| ci_at(hay, nl, k) {
        Some(choose|k: int| ci_at(hay, nl, k) && forall|j: int| 0 <= j < k ==> !#[trigger] ci_at(hay, nl, j))
    } else {
        None
    }
}

impl Matcher {
    /// The lowered needle is the needle lowered.
    pub open spec fn wf(&self) -> bool {
        match self {
            Matcher::Literal { needle, needle_lower, .. } => needle_lower@ == lowered(needle@),
            Matcher::Regex(_) => true,
        }
    }

    /// `(byte offset, byte length)` of the first match in `hay`.
    pub open spec fn find_spec(&self, hay: Seq<char>) -> Option<(nat, nat)> {
        match self {
            Matcher::Literal { needle, needle_lower, case_sensitive } => {
                let k = if *case_sensitive {
                    first_exact(hay, needle@)
                } else {
                    first_ci(hay, needle_lower@)
                };
                match k {
                    Some(k) => Some((byte_offset(hay, k), utf8_len(needle@))),
                    None => None,
                }
            },
            Matcher::Regex(r) => match regex_first_match(r.pattern_view(), r.insensitive(), hay) {
                Some((s, e)) => Some((s as nat, (e - s) as nat)),
                None => None,
            },
        }
    }

    /// Matches given the regex crate's answers.
    pub open spec fn build_spec(pattern: Seq<char>, case_sensitive: bool, regex: bool, m: Matcher) -> bool {
        if regex {
            m matches Matcher::Regex(r) && r.pattern_view() == pattern && r.insensitive() == !case_sensitive
        } else {
            m matches Matcher::Literal { needle, needle_lower, case_sensitive: cs } && needle@ == pattern
                && cs == case_sensitive
        }
    }

    pub fn build(pattern: &str, case_sensitive: bool, regex: bool) -> (r: Result<Matcher, MatcherError>)
        ensures
            r matches Ok(m) ==> m.wf() && Matcher::build_spec(pattern@, case_sensitive, regex, m),
            r is Err <==> regex && regex_refusal(pattern@, !case_sensitive) is Some,
            r matches Err(e) ==> e.pattern@ == pattern@ && regex_refusal(pattern@, !case_sensitive) == Some(
                e.reason@,
            ),
    {
        if regex {
            match regex_build(pattern, !case_sensitive) {
                Ok(m) => Ok(Matcher::Regex(m)),
                Err(reason) => Err(MatcherError { pattern: owned(pattern), reason }),
            }
        } else {
            Ok(
                Matcher::Literal {
                    needle: owned(pattern),
                    needle_lower: ascii_lowercase(pattern),
                    case_sensitive,
                },
            )
        }
    }

    /// `(byte offset, byte length)` of the first match in `hay`.
    pub fn find(&self, hay: &str) -> (r: Option<(usize, usize)>)
        requires
            self.wf(),
        ensures
            match (r, self.find_spec(hay@)) {
                (Some((p, l)), Some((q, m))) => p == q && l == m,
                (None, None) => true,
                _ => false,
            },
            r matches Some((p, l)) ==> is_boundary(hay@, p as int) && is_boundary(hay@, p + l)
                && p + l <= utf8_len(hay@),
    {
        match self {
            Matcher::Literal { needle, needle_lower, case_sensitive } => find_literal(
                needle,
                needle_lower,
                *case_sensitive,
                hay,
            ),
            Matcher::Regex(m) => {
                match regex_find(m, hay) {
                    Some((s, e)) => {
                        proof {
                            lemma_boundary_le_len(hay@, e as int);
                        }
                        Some((s, e - s))
                    },
                    None => None,
                }
            },
        }
    }
}

/// Literal search for [`Matcher::find`].
fn find_literal(needle: &String, needle_lower: &String, case_sensitive: bool, hay: &str) -> (r: Option<(usize, usize)>)
    requires
        needle_lower@ == lowered(needle@),
    ensures
        match r {
            Some((p, l)) => (Matcher::Literal {
                needle: *needle,
                needle_lower: *needle_lower,
                case_sensitive,
            }).find_spec(hay@) == Some((p as nat, l as nat)),
            None => (Matcher::Literal {
                needle: *needle,
                needle_lower: *needle_lower,
                case_sensitive,
            }).find_spec(hay@) is None,
        },
        r matches Some((p, l)) ==> is_boundary(hay@, p as int) && is_boundary(hay@, p + l)
            && p + l <= utf8_len(hay@),
{
    let total = str_len(hay);
    let hv = chars_of(hay);
    let nv = chars_of(needle.as_str());
    let k = if case_sensitive {
        find_exact(&hv, &nv)
    } else {
        let lv = chars_of(needle_lower.as_str());
        proof {
            lemma_lowered_no_upper(needle@);
        }
        find_ascii_ci(&hv, &lv)
    };
    match k {
        Some(k) => {
            proof {
                lemma_first_ci_props(hv@, needle_lower@);
                lemma_first_exact_props(hv@, nv@);
                lemma_match_span(hv@, nv@, needle_lower@, case_sensitive, k as int);
            }
            let p = byte_len_prefix(&hv, k);
            let l = str_len(needle.as_str());
            Some((p, l))
        },
        None => None,
    }
}

pub proof fn lemma_first_ci_props(hay: Seq<char>, nl: Seq<char>)
    ensures
        first_ci(hay, nl) matches Some(k) ==> ci_at(hay, nl, k) && forall|j: int|
            0 <= j < k ==> !#[trigger] ci_at(hay, nl, j),
{
    if exists|k: int| ci_at(hay, nl, k) {
        let k = choose|k: int| ci_at(hay, nl, k);
        lemma_least_ci(hay, nl, k);
    }
}

proof fn lemma_least_ci(hay: Seq<char>, nl: Seq<char>, k: int)
    requires
        ci_at(hay, nl, k),
    ensures
        exists|m: int| ci_at(hay, nl, m) && forall|j: int| 0 <= j < m ==> !#[trigger] ci_at(hay, nl, j),
    decreases k,
{
    if exists|j: int| 0 <= j < k && #[trigger] ci_at(hay, nl, j) {
        let j = choose|j: int| 0 <= j < k && #[trigger] ci_at(hay, nl, j);
        lemma_least_ci(hay, nl, j);
    } else {
        assert(forall|j: int| 0 <= j < k ==> !#[trigger] ci_at(hay, nl, j));
    }
}

proof fn lemma_least_exact(hay: Seq<char>, needle: Seq<char>, k: int)
    requires
        occurs_at(hay, needle, k),
    ensures
        exists|m: int|
            occurs_at(hay, needle, m) && forall|j: int| 0 <= j < m ==> !#[trigger] occurs_at(hay, needle, j),
    decreases k,
{
    if exists|j: int| 0 <= j < k && #[trigger] occurs_at(hay, needle, j) {
        let j = choose|j: int| 0 <= j < k && #[trigger] occurs_at(hay, needle, j);
        lemma_least_exact(hay, needle, j);
    } else {
        assert(forall|j: int| 0 <= j < k ==> !#[trigger] occurs_at(hay, needle, j));
    }
}

pub proof fn lemma_first_exact_props(hay: Seq<char>, needle: Seq<char>)
    ensures
        first_exact(hay, needle) matches Some(k) ==> occurs_at(hay, needle, k) && forall|j: int|
            0 <= j < k ==> !#[trigger] occurs_at(hay, needle, j),
{
    if exists|k: int| occurs_at(hay, needle, k) {
        let k = choose|k: int| occurs_at(hay, needle, k);
        lemma_least_exact(hay, needle, k);
    }
}

pub proof fn lemma_boundary_le_len(s: Seq<char>, n: int)
    requires
        is_boundary(s, n),
    ensures
        0 <= n <= utf8_len(s),
{
    let k = choose|k: int| 0 <= k <= s.len() && #[trigger] byte_offset(s, k) == n;
    lemma_byte_offset_full(s);
    if k < s.len() {
        lemma_byte_offset_strict(s, k, s.len() as int);
    }
}

/// A literal match of `m` characters at `k` spans the byte range
/// `[byte_offset(k), byte_offset(k) + utf8_len(needle)]`, both boundaries.
proof fn lemma_match_span(hay: Seq<char>, needle: Seq<char>, nl: Seq<char>, cs: bool, k: int)
    requires
        nl == lowered(needle),
        cs ==> occurs_at(hay, needle, k),
        !cs ==> ci_at(hay, nl, k),
    ensures
        0 <= k && k + needle.len() <= hay.len(),
        byte_offset(hay, k + needle.len()) == byte_offset(hay, k) + utf8_len(needle),
        is_boundary(hay, byte_offset(hay, k) as int),
        is_boundary(hay, (byte_offset(hay, k) + utf8_len(needle)) as int),
        byte_offset(hay, k) + utf8_len(needle) <= utf8_len(hay),
{
    let m = needle.len() as int;
    let seg = hay.subrange(k, k + m);
    assert(hay.take(k + m) =~= hay.take(k) + seg);
    lemma_utf8_len_concat(hay.take(k), seg);
    if !cs {
        assert forall|j: int| 0 <= j < needle.len() implies lower(#[trigger] seg[j]) == lowered(needle)[j] by {
            assert(seg[j] == hay[k + j]);
        }
        lemma_widths_equal(seg, needle);
    } else {
        assert(seg =~= needle);
    }
    assert(is_boundary(hay, byte_offset(hay, k) as int));
    assert(is_boundary(hay, byte_offset(hay, k + m) as int));
    lemma_byte_offset_full(hay);
    if k + m < hay.len() {
        lemma_byte_offset_strict(hay, k + m, hay.len() as int);
    }
}

proof fn lemma_lowered_no_upper(s: Seq<char>)
    ensures
        forall|j: int| 0 <= j < lowered(s).len() ==> !('A' <= #[trigger] lowered(s)[j] <= 'Z'),
{
    assert forall|j: int| 0 <= j < lowered(s).len() implies !('A' <= #[trigger] lowered(s)[j] <= 'Z') by {
        let c = s[j];
        if 'A' <= c <= 'Z' {
            let d = ((c as u32) + 32) as char;
            vstd::utf8::char_u32_cast(d, d as u32);
        }
    }
}

/// Sequences equal up to ASCII case have the same UTF-8 length.
proof fn lemma_widths_equal(a: Seq<char>, b: Seq<char>)
    requires
        a.len() == b.len(),
        forall|j: int| 0 <= j < b.len() ==> lower(#[trigger] a[j]) == lowered(b)[j],
    ensures
        utf8_len(a) == utf8_len(b),
    decreases a.len(),
{
    if a.len() > 0 {
        let n = a.len() - 1;
        assert(lower(a[n]) == lower(b[n]));
        assert forall|j: int| 0 <= j < b.drop_last().len() implies lower(#[trigger] a.drop_last()[j])
            == lowered(b.drop_last())[j] by {
            assert(lower(a[j]) == lowered(b)[j]);
        }
        lemma_widths_equal(a.drop_last(), b.drop_last());
    }
}

/// `to_ascii_lowercase` of a string.
fn ascii_lowercase(s: &str) -> (r: String)
    ensures
        r@ == lowered(s@),
{
    let v = chars_of(s);
    let mut out = String::new();
    let mut i: usize = 0;
    while i < v.len()
        invariant
            i <= v@.len(),
            out@ == lowered(v@.take(i as int)),
        decreases v@.len() - i,
    {
        crate::text::push_char(&mut out, to_lower(v[i]));
        assert(lowered(v@.take(i + 1)) =~= lowered(v@.take(i as int)).push(lower(v@[i as int])));
        i = i + 1;
    }
    assert(v@.take(v@.len() as int) =~= v@);
    out
}

/// Byte offset of character `k` of `v`.
fn byte_len_prefix(v: &Vec<char>, k: usize) -> (n: usize)
    requires
        k <= v@.len(),
        utf8_len(v@) <= usize::MAX,
    ensures
        n == byte_offset(v@, k as int),
{
    let mut i: usize = 0;
    let mut off: usize = 0;
    proof {
        crate::text::lemma_byte_offset_zero(v@);
    }
    while i < k
        invariant
            i <= k <= v@.len(),
            off == byte_offset(v@, i as int),
            utf8_len(v@) <= usize::MAX,
        decreases k - i,
    {
        proof {
            crate::text::lemma_byte_offset_step(v@, i as int);
            lemma_byte_offset_full(v@);
            if i + 1 < v@.len() {
                lemma_byte_offset_strict(v@, i + 1, v@.len() as int);
            }
        }
        off = off + crate::text::char_width(v[i]);
        i = i + 1;
    }
    off
}

/// First exact occurrence (`str::find`), as a character index.
fn find_exact(hay: &Vec<char>, needle: &Vec<char>) -> (r: Option<usize>)
    ensures
        match r {
            Some(k) => first_exact(hay@, needle@) == Some(k as int),
            None => first_exact(hay@, needle@) is None,
        },
{
    let n: usize = hay.len();
    let mut i: usize = 0;
    loop
        invariant
            n == hay@.len(),
            i <= n,
            forall|j: int| 0 <= j < i ==> !#[trigger] occurs_at(hay@, needle@, j),
        decreases n - i,
    {
        if occurs_at_exec(hay, needle, i) {
            proof {
                lemma_first_exact(hay@, needle@, i as int);
            }
            return Some(i);
        }
        if i == n {
            proof {
                if exists|k: int| occurs_at(hay@, needle@, k) {
                    let k = choose|k: int| occurs_at(hay@, needle@, k);
                    assert(!occurs_at(hay@, needle@, k));
                }
            }
            return None;
        }
        i = i + 1;
    }
}

proof fn lemma_first_exact(hay: Seq<char>, needle: Seq<char>, i: int)
    requires
        occurs_at(hay, needle, i),
        forall|j: int| 0 <= j < i ==> !#[trigger] occurs_at(hay, needle, j),
    ensures
        first_exact(hay, needle) == Some(i),
{
    let k = choose|k: int|
        occurs_at(hay, needle, k) && forall|j: int| 0 <= j < k ==> !#[trigger] occurs_at(hay, needle, j);
    if k < i {
    } else if k > i {
        assert(!occurs_at(hay, needle, i));
    }
}

/// `a` lowered equals `b_lower`, character by character over `b_lower`'s length.
fn eq_ci(a: &Vec<char>, at: usize, b_lower: &Vec<char>) -> (r: bool)
    requires
        at + b_lower@.len() <= a@.len(),
    ensures
        r == ci_at(a@, b_lower@, at as int),
{
    let an: usize = a.len();
    let mut j: usize = 0;
    while j < b_lower.len()
        invariant
            an == a@.len(),
            at + b_lower@.len() <= an,
            j <= b_lower@.len(),
            forall|t: int| 0 <= t < j ==> lower(#[trigger] a@[at + t]) == b_lower@[t],
        decreases b_lower@.len() - j,
    {
        if to_lower(a[at + j]) != b_lower[j] {
            return false;
        }
        j = j + 1;
    }
    true
}

/// First position at or after `from` holding `c1` or `c2` (the role `memchr`
/// plays on bytes), or `None`.
fn position_either(hay: &Vec<char>, from: usize, limit: usize, c1: char, c2: char) -> (r: Option<usize>)
    requires
        from <= limit < hay@.len(),
    ensures
        match r {
            Some(i) => from <= i <= limit && (hay@[i as int] == c1 || hay@[i as int] == c2) && forall|
                j: int,
            | from <= j < i ==> #[trigger] hay@[j] != c1 && hay@[j] != c2,
            None => forall|j: int| from <= j <= limit ==> #[trigger] hay@[j] != c1 && hay@[j] != c2,
        },
{
    let mut i: usize = from;
    loop
        invariant
            from <= i <= limit < hay@.len(),
            forall|j: int| from <= j < i ==> #[trigger] hay@[j] != c1 && hay@[j] != c2,
        decreases limit - i,
    {
        if hay[i] == c1 || hay[i] == c2 {
            return Some(i);
        }
        if i == limit {
            return None;
        }
        i = i + 1;
    }
}

/// Case-insensitive ASCII substring search: jumps to candidate positions
/// holding either case of the needle's first character, then compares.
pub fn find_ascii_ci(hay: &Vec<char>, needle_lower: &Vec<char>) -> (r: Option<usize>)
    requires
        forall|j: int| 0 <= j < needle_lower@.len() ==> !('A' <= #[trigger] needle_lower@[j] <= 'Z'),
    ensures
        match r {
            Some(k) => first_ci(hay@, needle_lower@) == Some(k as int),
            None => first_ci(hay@, needle_lower@) is None,
        },
{
    let n: usize = needle_lower.len();
    if n == 0 {
        proof {
            assert(ci_at(hay@, needle_lower@, 0));
            lemma_first_ci(hay@, needle_lower@, 0);
        }
        return Some(0);
    }
    if hay.len() < n {
        proof {
            lemma_no_ci(hay@, needle_lower@, 0);
        }
        return None;
    }
    let first_lo = needle_lower[0];
    let first_up = if 'a' <= first_lo && first_lo <= 'z' {
        crate::text::char_from_ascii((first_lo as u32 - 32) as u8)
    } else {
        first_lo
    };
    proof {
        lemma_candidates(first_lo, first_up);
    }
    let hl: usize = hay.len();
    let limit: usize = hl - n;
    let mut start: usize = 0;
    while start <= limit
        invariant
            hl == hay@.len(),
            limit < hl,
            n == needle_lower@.len(),
            n > 0,
            limit == hay@.len() - n,
            first_lo == needle_lower@[0],
            forall|c: char| lower(c) == first_lo <==> (c == first_lo || c == first_up),
            forall|j: int| 0 <= j < start ==> !#[trigger] ci_at(hay@, needle_lower@, j),
        decreases limit + 1 - start,
    {
        let p = position_either(hay, start, limit, first_lo, first_up);
        let i = match p {
            Some(i) => i,
            None => {
                proof {
                    assert forall|j: int| start <= j <= limit implies !#[trigger] ci_at(hay@, needle_lower@, j) by {
                        assert(lower(hay@[j + 0]) != needle_lower@[0]);
                    }
                    lemma_no_ci(hay@, needle_lower@, 0);
                }
                return None;
            },
        };
        proof {
            assert forall|j: int| start <= j < i implies !#[trigger] ci_at(hay@, needle_lower@, j) by {
                assert(lower(hay@[j + 0]) != needle_lower@[0]);
            }
        }
        if eq_ci(hay, i, needle_lower) {
            proof {
                lemma_first_ci(hay@, needle_lower@, i as int);
            }
            return Some(i);
        }
        start = i + 1;
    }
    proof {
        lemma_no_ci(hay@, needle_lower@, 0);
    }
    None
}

/// The characters that lower to `lo` are `lo` and `up`.
proof fn lemma_candidates(lo: char, up: char)
    requires
        !('A' <= lo <= 'Z'),
        ('a' <= lo <= 'z') ==> up as u32 == lo as u32 - 32,
        !('a' <= lo <= 'z') ==> up == lo,
    ensures
        forall|c: char| lower(c) == lo <==> (c == lo || c == up),
{
    assert forall|c: char| lower(c) == lo <==> (c == lo || c == up) by {
        crate::text::lemma_char_u32_injective(c, up);
        crate::text::lemma_char_u32_injective(c, lo);
        if 'A' <= c <= 'Z' {
            let d = ((c as u32) + 32) as char;
            vstd::utf8::char_u32_cast(d, d as u32);
            assert(d as u32 == (c as u32) + 32);
            crate::text::lemma_char_u32_injective(d, lo);
        }
    }
}

proof fn lemma_first_ci(hay: Seq<char>, nl: Seq<char>, i: int)
    requires
        ci_at(hay, nl, i),
        forall|j: int| 0 <= j < i ==> !#[trigger] ci_at(hay, nl, j),
    ensures
        first_ci(hay, nl) == Some(i),
{
    let k = choose|k: int| ci_at(hay, nl, k) && forall|j: int| 0 <= j < k ==> !#[trigger] ci_at(hay, nl, j);
    if k < i {
    } else if k > i {
        assert(!ci_at(hay, nl, i));
    }
}

proof fn lemma_no_ci(hay: Seq<char>, nl: Seq<char>, unused: int)
    requires
        forall|j: int| 0 <= j <= hay.len() - nl.len() ==> !#[trigger] ci_at(hay, nl, j),
    ensures
        first_ci(hay, nl) is None,
{
    if exists|k: int| ci_at(hay, nl, k) {
        let k = choose|k: int| ci_at(hay, nl, k);
        assert(!ci_at(hay, nl, k));
    }
}

} // verus!
