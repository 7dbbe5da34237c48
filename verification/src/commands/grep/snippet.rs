//! Match-centered snippet extraction: UTF-8 safe, optional ANSI coloring.
//!
//! A snippet shows up to [`SNIPPET_WIDTH`] bytes of text around a match. The
//! window is widened or narrowed to the nearest character boundaries, line
//! breaks and tabs are flattened to spaces, and an ellipsis marks each side
//! where text was cut.

use vstd::prelude::*;
use crate::term::{paint, painted, BOLD_RED};
use crate::text::{
    byte_offset, char_index_at_byte, char_pos, chars_of, char_width, is_boundary,
    lemma_byte_offset_full, lemma_byte_offset_injective, lemma_byte_offset_le_len,
    lemma_byte_offset_step, lemma_byte_offset_strict, lemma_byte_offset_zero, lemma_char_pos,
    push_char, push_str, str_len, string_of_range, utf8_len,
};

verus! {

broadcast use vstd::string::group_string_axioms;

pub const SNIPPET_WIDTH: usize = 140;

/// Line breaks and tabs become spaces.
pub open spec fn clean_char(c: char) -> char {
    if c == '\n' || c == '\r' || c == '\t' {
        ' '
    } else {
        c
    }
}

/// `s` with every line break and tab replaced by a space.
pub open spec fn cleaned(s: Seq<char>) -> Seq<char> {
    s.map_values(|c: char| clean_char(c))
}

/// `k` is the first character index whose byte offset reaches `n`.
pub open spec fn ceil_at(s: Seq<char>, n: int, k: int) -> bool {
    &&& 0 <= k <= s.len()
    &&& n <= byte_offset(s, k)
    &&& forall|j: int| 0 <= j < k ==> #[trigger] byte_offset(s, j) < n
}

/// `k` is the last character index whose byte offset does not pass `n`.
pub open spec fn floor_at(s: Seq<char>, n: int, k: int) -> bool {
    &&& 0 <= k <= s.len()
    &&& byte_offset(s, k) <= n
    &&& forall|j: int| k < j <= s.len() ==> n < #[trigger] byte_offset(s, j)
}

/// The boundary at or after byte `n`, as a character index.
pub open spec fn ceil_char(s: Seq<char>, n: int) -> int {
    choose|k: int| ceil_at(s, n, k)
}

/// The boundary at or before byte `n`, as a character index.
pub open spec fn floor_char(s: Seq<char>, n: int) -> int {
    choose|k: int| floor_at(s, n, k)
}

/// Bytes of context on each side of a match of `len` bytes.
pub open spec fn radius(len: int) -> int {
    if len <= SNIPPET_WIDTH {
        (SNIPPET_WIDTH - len) / 2
    } else {
        0
    }
}

pub open spec fn ellipsis_if(b: bool) -> Seq<char> {
    if b {
        seq!['…']
    } else {
        Seq::empty()
    }
}

/// The snippet of `s` around the match at characters `kp..ke`.
pub open spec fn snippet_view(s: Seq<char>, kp: int, ke: int, color: bool) -> Seq<char> {
    let pos = byte_offset(s, kp) as int;
    let end = byte_offset(s, ke) as int;
    let r = radius(end - pos);
    let lo = if pos >= r {
        pos - r
    } else {
        0
    };
    let hi = if utf8_len(s) - end <= r {
        utf8_len(s) as int
    } else {
        end + r
    };
    let a = ceil_char(s, lo);
    let b = floor_char(s, hi);
    ellipsis_if(a > 0) + cleaned(s.subrange(a, kp)) + painted(
        BOLD_RED@,
        s.subrange(kp, ke),
        color,
    ) + cleaned(s.subrange(ke, b)) + ellipsis_if(b < s.len())
}

/// The snippet for a match of `len` bytes at byte `pos` of `s`.
pub open spec fn snippet_of(s: Seq<char>, pos: int, len: int, color: bool) -> Seq<char> {
    snippet_view(s, char_pos(s, pos), char_pos(s, pos + len), color)
}

proof fn lemma_ceil_unique(s: Seq<char>, n: int, k: int)
    requires
        ceil_at(s, n, k),
    ensures
        ceil_char(s, n) == k,
{
    let c = ceil_char(s, n);
    assert(ceil_at(s, n, c));
    if c < k {
        assert(byte_offset(s, c) < n);
    } else if k < c {
        assert(byte_offset(s, k) < n);
    }
}

proof fn lemma_floor_unique(s: Seq<char>, n: int, k: int)
    requires
        floor_at(s, n, k),
    ensures
        floor_char(s, n) == k,
{
    let c = floor_char(s, n);
    assert(floor_at(s, n, c));
    if c < k {
        assert(n < byte_offset(s, k));
    } else if k < c {
        assert(n < byte_offset(s, c));
    }
}

/// `s` with line breaks and tabs flattened (`str::replace`).
pub fn clean(s: &str) -> (r: String)
    ensures
        r@ == cleaned(s@),
{
    let v = chars_of(s);
    let mut out = String::new();
    push_cleaned(&mut out, &v, 0, v.len());
    assert(v@.subrange(0, v@.len() as int) =~= s@);
    out
}

/// Appends `cleaned(v[lo..hi])` to `out`.
pub fn push_cleaned(out: &mut String, v: &Vec<char>, lo: usize, hi: usize)
    requires
        lo <= hi <= v@.len(),
    ensures
        final(out)@ == old(out)@ + cleaned(v@.subrange(lo as int, hi as int)),
{
    let mut i: usize = lo;
    while i < hi
        invariant
            lo <= i <= hi <= v@.len(),
            out@ == old(out)@ + cleaned(v@.subrange(lo as int, i as int)),
        decreases hi - i,
    {
        let c = v[i];
        let d = if c == '\n' || c == '\r' || c == '\t' {
            ' '
        } else {
            c
        };
        push_char(out, d);
        assert(cleaned(v@.subrange(lo as int, i + 1)) =~= cleaned(v@.subrange(lo as int, i as int)).push(
            clean_char(v@[i as int]),
        ));
        i = i + 1;
    }
}

/// Smallest character index whose byte offset is at least `n`.
fn ceil_index(v: &Vec<char>, n: usize) -> (k: usize)
    requires
        n <= utf8_len(v@),
        utf8_len(v@) <= usize::MAX,
    ensures
        ceil_at(v@, n as int, k as int),
{
    let mut k: usize = 0;
    let mut off: usize = 0;
    let len = v.len();
    proof {
        lemma_byte_offset_zero(v@);
        lemma_byte_offset_full(v@);
    }
    while off < n
        invariant
            len == v@.len(),
            k <= v@.len(),
            off == byte_offset(v@, k as int),
            n <= utf8_len(v@) <= usize::MAX,
            forall|j: int| 0 <= j < k ==> #[trigger] byte_offset(v@, j) < n,
        decreases v@.len() - k,
    {
        proof {
            lemma_byte_offset_full(v@);
            if k == v@.len() {
                assert(false);
            }
            lemma_byte_offset_step(v@, k as int);
            lemma_byte_offset_le_len(v@, k + 1);
        }
        off = off + char_width(v[k]);
        k = k + 1;
    }
    k
}

/// Largest character index whose byte offset is at most `n`.
fn floor_index(v: &Vec<char>, n: usize) -> (k: usize)
    requires
        utf8_len(v@) <= usize::MAX,
    ensures
        floor_at(v@, n as int, k as int),
{
    let mut k: usize = 0;
    let mut off: usize = 0;
    proof {
        lemma_byte_offset_zero(v@);
    }
    loop
        invariant
            k <= v@.len(),
            off == byte_offset(v@, k as int),
            off <= n,
            utf8_len(v@) <= usize::MAX,
        decreases v@.len() - k,
    {
        if k == v.len() {
            return k;
        }
        proof {
            lemma_byte_offset_step(v@, k as int);
            lemma_byte_offset_le_len(v@, k + 1);
        }
        let w = char_width(v[k]);
        if w > n - off {
            proof {
                assert forall|j: int| k < j <= v@.len() implies n < #[trigger] byte_offset(v@, j) by {
                    if k + 1 < j {
                        lemma_byte_offset_strict(v@, k + 1, j);
                    }
                }
            }
            return k;
        }
        off = off + w;
        k = k + 1;
    }
}

/// The snippet around the match of `needle_len` bytes at byte `pos`, the match
/// painted bold red when `color` is on.
pub fn snippet(text: &str, pos: usize, needle_len: usize, color: bool) -> (r: String)
    requires
        is_boundary(text@, pos as int),
        is_boundary(text@, pos + needle_len),
    ensures
        r@ == snippet_of(text@, pos as int, needle_len as int, color),
{
    build_snippet(text, pos, needle_len, color)
}

/// Same layout as [`snippet`], without ANSI color: for JSON output, where the
/// match is a data field rather than a display string.
pub fn snippet_plain(text: &str, pos: usize, needle_len: usize) -> (r: String)
    requires
        is_boundary(text@, pos as int),
        is_boundary(text@, pos + needle_len),
    ensures
        r@ == snippet_of(text@, pos as int, needle_len as int, false),
{
    build_snippet(text, pos, needle_len, false)
}

fn build_snippet(text: &str, pos: usize, needle_len: usize, color: bool) -> (r: String)
    requires
        is_boundary(text@, pos as int),
        is_boundary(text@, pos + needle_len),
    ensures
        r@ == snippet_of(text@, pos as int, needle_len as int, color),
{
    let total = str_len(text);
    let v = chars_of(text);
    let ghost s = v@;
    let kp = match char_index_at_byte(&v, pos) {
        Some(k) => k,
        None => {
            proof {
                assert(false);
            }
            0
        },
    };
    proof {
        lemma_byte_offset_le_len(s, kp as int);
        let k2 = choose|k: int| 0 <= k <= s.len() && #[trigger] byte_offset(s, k) == pos + needle_len;
        lemma_byte_offset_le_len(s, k2);
    }
    let end = pos + needle_len;
    let ke = match char_index_at_byte(&v, end) {
        Some(k) => k,
        None => {
            proof {
                assert(false);
            }
            0
        },
    };
    proof {
        lemma_char_pos(s, kp as int);
        lemma_char_pos(s, ke as int);
        if ke < kp {
            lemma_byte_offset_strict(s, ke as int, kp as int);
        }
    }
    let r: usize = if needle_len <= SNIPPET_WIDTH {
        (SNIPPET_WIDTH - needle_len) / 2
    } else {
        0
    };
    let lo: usize = if pos >= r {
        pos - r
    } else {
        0
    };
    let hi: usize = if total - end <= r {
        total
    } else {
        end + r
    };
    let a = ceil_index(&v, lo);
    let b = floor_index(&v, hi);
    proof {
        lemma_ceil_unique(s, lo as int, a as int);
        lemma_floor_unique(s, hi as int, b as int);
        // the match itself lies inside the window
        if kp < a {
            assert(byte_offset(s, kp as int) < lo);
        }
        if b < ke {
            assert(hi < byte_offset(s, ke as int));
        }
    }
    let mut out = String::new();
    if a > 0 {
        push_char(&mut out, '…');
    }
    push_cleaned(&mut out, &v, a, kp);
    let matched = string_of_range(&v, kp, ke);
    let lit = paint(BOLD_RED, matched.as_str(), color);
    push_str(&mut out, lit.as_str());
    push_cleaned(&mut out, &v, ke, b);
    if b < v.len() {
        push_char(&mut out, '…');
    }
    proof {
        assert(out@ =~= snippet_view(s, kp as int, ke as int, color));
        assert(char_pos(s, pos as int) == kp);
        assert(char_pos(s, pos + needle_len) == ke);
    }
    out
}

/// Up to [`SNIPPET_WIDTH`] characters of flattened text, with an ellipsis
/// when longer: the one-line preview of a context event.
pub open spec fn context_view(text: Seq<char>) -> Seq<char> {
    let flat = cleaned(text);
    if flat.len() > SNIPPET_WIDTH {
        flat.take(SNIPPET_WIDTH as int).push('…')
    } else {
        flat
    }
}

pub fn context_snippet(text: &str) -> (r: String)
    ensures
        r@ == context_view(text@),
{
    let v = chars_of(text);
    let mut out = String::new();
    if v.len() > SNIPPET_WIDTH {
        push_cleaned(&mut out, &v, 0, SNIPPET_WIDTH);
        push_char(&mut out, '…');
        assert(cleaned(v@).take(SNIPPET_WIDTH as int) =~= cleaned(v@.subrange(0, SNIPPET_WIDTH as int)));
    } else {
        push_cleaned(&mut out, &v, 0, v.len());
        assert(v@.subrange(0, v@.len() as int) =~= v@);
    }
    assert(out@ =~= context_view(text@));
    out
}

} // verus!
