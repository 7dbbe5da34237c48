//! Presentation: session headers, hit rows and the summary line.

use vstd::prelude::*;
use crate::commands::grep::opts::{hits_view, HitKind, HitView, SessionHits};
use crate::commands::grep::snippet::{clean, cleaned};
use crate::term::{paint, painted, BOLD, CYAN, DIM, GREEN, MAGENTA, YELLOW};
use crate::text::{
    chars_of, decimal, owned, padded, push_char, push_decimal, push_spaces, push_str, replace_t,
    seq_lt, short8, short_id8, spaces, string_of_range, t_to_space, take_chars,
};
use crate::transcript::{opt_str_view, Role};

verus! {

broadcast use vstd::string::group_string_axioms;

/// Width of the first-prompt preview under a session header.
pub const PROMPT_PREVIEW: usize = 110;

pub fn plural<'a>(n: usize, one: &'a str, many: &'a str) -> (r: &'a str)
    ensures
        r == if n == 1 { one } else { many },
{
    if n == 1 {
        one
    } else {
        many
    }
}

/// `s` padded with spaces on the right to `width` characters.
pub fn pad(s: &str, width: usize) -> (r: String)
    ensures
        r@ == padded(s@, width as nat),
{
    let mut out = owned(s);
    let n = chars_of(s).len();
    if n < width {
        push_spaces(&mut out, width - n);
    }
    out
}

/// `#N` right-aligned in 4 columns, or `  - ` when the turn is unknown.
pub open spec fn turn_cell(turn: Option<nat>) -> Seq<char> {
    match turn {
        Some(n) => {
            let s = "#"@ + decimal(n);
            spaces(if s.len() < 4 { (4 - s.len()) as nat } else { 0 }) + s
        },
        None => "  - "@,
    }
}

/// 4-wide, right-aligned: `  #7`, ` #42`, `#123`, or `  - ` when unknown.
pub fn fmt_turn(turn: Option<usize>) -> (r: String)
    ensures
        r@ == turn_cell(crate::commands::grep::opts::opt_nat(turn)),
{
    match turn {
        Some(n) => {
            let mut s = owned("#");
            push_decimal(&mut s, n as u64);
            let len = chars_of(s.as_str()).len();
            let mut out = String::new();
            if len < 4 {
                push_spaces(&mut out, 4 - len);
            }
            push_str(&mut out, s.as_str());
            proof {
                if len >= 4 {
                    assert(spaces(0) =~= Seq::<char>::empty());
                }
            }
            assert(out@ =~= turn_cell(Some(n as nat)));
            out
        },
        None => owned("  - "),
    }
}

/// `2026-04-23T10:30:15.123Z` becomes `2026-04-23 10:30:15`.
pub open spec fn stamp_text(ts: Seq<char>) -> Seq<char> {
    let s = t_to_space(ts);
    s.take(if s.len() < 19 { s.len() as int } else { 19 })
}

pub fn fmt_ts(ts: &str) -> (r: String)
    ensures
        r@ == stamp_text(ts@),
{
    let s = replace_t(ts);
    take_chars(s.as_str(), 19)
}

// ---------------------------------------------------------------------------
// One session
// ---------------------------------------------------------------------------

/// The first match row, if any.
pub open spec fn first_match(hits: Seq<HitView>) -> Option<HitView>
    decreases hits.len(),
{
    if hits.len() == 0 {
        None
    } else if hits[0].kind == HitKind::Match {
        Some(hits[0])
    } else {
        first_match(hits.drop_first())
    }
}

/// The label of a row: `tool` for tool output, else the role.
pub open spec fn hit_label(h: HitView) -> Seq<char> {
    if h.is_tool {
        "tool"@
    } else {
        h.role.name()
    }
}

/// A row: its padded label, turn and snippet; context rows are dimmed.
pub open spec fn hit_row(h: HitView, color: bool) -> Seq<char> {
    let p = padded(hit_label(h), 9);
    let tag = if h.kind == HitKind::Context {
        painted(DIM@, p, color)
    } else if h.role == Role::User && !h.is_tool {
        painted(GREEN@, p, color)
    } else if h.role == Role::Assistant {
        painted(MAGENTA@, p, color)
    } else {
        painted(YELLOW@, p, color)
    };
    let body = if h.kind == HitKind::Context {
        painted(DIM@, h.snippet, color)
    } else {
        h.snippet
    };
    "  "@ + tag + " "@ + painted(DIM@, turn_cell(h.turn), color) + " "@ + body + "\n"@
}

pub open spec fn hit_rows(hits: Seq<HitView>, color: bool) -> Seq<char>
    decreases hits.len(),
{
    if hits.len() == 0 {
        Seq::empty()
    } else {
        hit_rows(hits.drop_last(), color) + hit_row(hits.last(), color)
    }
}

/// The first prompt on one line, cut to [`PROMPT_PREVIEW`] characters.
pub open spec fn prompt_line(p: Seq<char>, color: bool) -> Seq<char> {
    let flat = cleaned(p);
    let preview = flat.take(if flat.len() < PROMPT_PREVIEW { flat.len() as int } else { PROMPT_PREVIEW as int });
    let ell = if flat.len() > PROMPT_PREVIEW { "…"@ } else { ""@ };
    "  "@ + painted(DIM@, preview, color) + painted(DIM@, ell, color) + "\n"@
}

/// The session block: header (short id, time of the first match, project),
/// the first prompt on one line, the rows, and a `cch show` hint for the turn
/// of the first match.
pub open spec fn session_text(
    id: Seq<char>,
    project: Seq<char>,
    first_prompt: Option<Seq<char>>,
    hits: Seq<HitView>,
    color: bool,
) -> Seq<char> {
    let prompt = match first_prompt {
        Some(p) => prompt_line(p, color),
        None => Seq::empty(),
    };
    header_line(id, project, hits, color) + prompt + hit_rows(hits, color) + hint_line(id, hits, color)
}

/// Short id, time of the first match, and project.
pub open spec fn header_line(id: Seq<char>, project: Seq<char>, hits: Seq<HitView>, color: bool) -> Seq<char> {
    let ts = match first_match(hits) {
        Some(h) => match h.timestamp {
            Some(t) => stamp_text(t),
            None => Seq::empty(),
        },
        None => Seq::empty(),
    };
    painted(BOLD@, short8(id), color) + "  "@ + painted(DIM@, ts, color) + "  "@ + painted(
        CYAN@,
        project,
        color,
    ) + "\n"@
}

/// `  → cch show <short id> --turns N` for the turn of the first match.
pub open spec fn hint_line(id: Seq<char>, hits: Seq<HitView>, color: bool) -> Seq<char> {
    match first_match(hits) {
        Some(h) => match h.turn {
            Some(t) => painted(DIM@, "  → cch show "@ + short8(id) + " --turns "@ + decimal(t), color)
                + "\n"@,
            None => Seq::empty(),
        },
        None => Seq::empty(),
    }
}

fn first_match_index(s: &SessionHits) -> (r: Option<usize>)
    ensures
        match r {
            Some(i) => i < s.hits@.len() && first_match(hits_view(s.hits@)) == Some(s.hits@[i as int]@),
            None => first_match(hits_view(s.hits@)) is None,
        },
{
    let ghost hv = hits_view(s.hits@);
    let mut i: usize = 0;
    assert(hv.skip(0) =~= hv);
    while i < s.hits.len()
        invariant
            hv == hits_view(s.hits@),
            i <= s.hits@.len(),
            first_match(hv) == first_match(hv.skip(i as int)),
        decreases s.hits@.len() - i,
    {
        proof {
            assert(hv.skip(i as int)[0] == s.hits@[i as int]@);
            assert(hv.skip(i as int).drop_first() =~= hv.skip(i + 1));
        }
        if s.hits[i].kind == HitKind::Match {
            return Some(i);
        }
        i = i + 1;
    }
    proof {
        assert(hv.skip(i as int).len() == 0);
    }
    None
}

fn push_prompt_line(out: &mut String, p: &str, color: bool)
    ensures
        final(out)@ == old(out)@ + prompt_line(p@, color),
{
    let flat = clean(p);
    let preview = take_chars(flat.as_str(), PROMPT_PREVIEW);
    let long = chars_of(flat.as_str()).len() > PROMPT_PREVIEW;
    push_str(out, "  ");
    let a = paint(DIM, preview.as_str(), color);
    push_str(out, a.as_str());
    let ell: &str = if long {
        "…"
    } else {
        ""
    };
    let b = paint(DIM, ell, color);
    push_str(out, b.as_str());
    push_str(out, "\n");
}

fn push_hit_row(out: &mut String, h: &crate::commands::grep::opts::Hit, color: bool)
    ensures
        final(out)@ == old(out)@ + hit_row(h@, color),
{
    let label: &str = if h.is_tool {
        "tool"
    } else {
        h.role.label()
    };
    let padded_label = pad(label, 9);
    let tag = if h.kind == HitKind::Context {
        paint(DIM, padded_label.as_str(), color)
    } else if h.role == Role::User && !h.is_tool {
        paint(GREEN, padded_label.as_str(), color)
    } else if h.role == Role::Assistant {
        paint(MAGENTA, padded_label.as_str(), color)
    } else {
        paint(YELLOW, padded_label.as_str(), color)
    };
    let body = if h.kind == HitKind::Context {
        paint(DIM, h.snippet.as_str(), color)
    } else {
        owned(h.snippet.as_str())
    };
    let cell = fmt_turn(h.turn);
    let turn = paint(DIM, cell.as_str(), color);
    push_str(out, "  ");
    push_str(out, tag.as_str());
    push_str(out, " ");
    push_str(out, turn.as_str());
    push_str(out, " ");
    push_str(out, body.as_str());
    push_str(out, "\n");
}

fn push_header(out: &mut String, s: &SessionHits, first: Option<usize>, short: &String, color: bool)
    requires
        short@ == short8(s.id@),
        match first {
            Some(i) => i < s.hits@.len() && first_match(hits_view(s.hits@)) == Some(s.hits@[i as int]@),
            None => first_match(hits_view(s.hits@)) is None,
        },
    ensures
        final(out)@ == old(out)@ + header_line(s.id@, s.project@, hits_view(s.hits@), color),
{
    let ts = match first {
        Some(i) => match &s.hits[i].timestamp {
            Some(t) => fmt_ts(t.as_str()),
            None => String::new(),
        },
        None => String::new(),
    };
    let p = paint(BOLD, short.as_str(), color);
    push_str(out, p.as_str());
    push_str(out, "  ");
    let p = paint(DIM, ts.as_str(), color);
    push_str(out, p.as_str());
    push_str(out, "  ");
    let p = paint(CYAN, s.project.as_str(), color);
    push_str(out, p.as_str());
    push_str(out, "\n");
}

fn push_hint(out: &mut String, s: &SessionHits, first: Option<usize>, short: &String, color: bool)
    requires
        short@ == short8(s.id@),
        match first {
            Some(i) => i < s.hits@.len() && first_match(hits_view(s.hits@)) == Some(s.hits@[i as int]@),
            None => first_match(hits_view(s.hits@)) is None,
        },
    ensures
        final(out)@ == old(out)@ + hint_line(s.id@, hits_view(s.hits@), color),
{
    if let Some(k) = first {
        if let Some(t) = s.hits[k].turn {
            let mut hint = owned("  → cch show ");
            push_str(&mut hint, short.as_str());
            push_str(&mut hint, " --turns ");
            push_decimal(&mut hint, t as u64);
            let p = paint(DIM, hint.as_str(), color);
            push_str(out, p.as_str());
            push_str(out, "\n");
            return;
        }
    }
    assert(out@ =~= old(out)@ + hint_line(s.id@, hits_view(s.hits@), color));
}

/// Renders one session's hits (see [`session_text`]).
pub fn print_session(s: &SessionHits, color: bool) -> (r: String)
    ensures
        r@ == session_text(s.id@, s.project@, opt_str_view(s.first_prompt), hits_view(s.hits@), color),
{
    let short = short_id8(s.id.as_str());
    let first = first_match_index(s);
    let mut out = String::new();
    push_header(&mut out, s, first, &short, color);
    let ghost header = out@;
    if let Some(p) = &s.first_prompt {
        push_prompt_line(&mut out, p.as_str(), color);
    }
    let ghost with_prompt = out@;
    let ghost hv = hits_view(s.hits@);
    let mut i: usize = 0;
    while i < s.hits.len()
        invariant
            hv == hits_view(s.hits@),
            i <= s.hits@.len(),
            out@ == with_prompt + hit_rows(hv.take(i as int), color),
        decreases s.hits@.len() - i,
    {
        proof {
            assert(hv.take(i + 1).drop_last() =~= hv.take(i as int));
            assert(hv.take(i + 1).last() == s.hits@[i as int]@);
        }
        push_hit_row(&mut out, &s.hits[i], color);
        i = i + 1;
    }
    proof {
        assert(hv.take(i as int) =~= hv);
    }
    push_hint(&mut out, s, first, &short, color);
    proof {
        let prompt = match opt_str_view(s.first_prompt) {
            Some(p) => prompt_line(p, color),
            None => Seq::<char>::empty(),
        };
        assert(with_prompt =~= header + prompt);
        assert(out@ =~= session_text(
            s.id@,
            s.project@,
            opt_str_view(s.first_prompt),
            hits_view(s.hits@),
            color,
        ));
    }
    out
}

// ---------------------------------------------------------------------------
// --stats
// ---------------------------------------------------------------------------

/// The timestamps of the match rows, in order.
pub open spec fn hit_stamps(hits: Seq<HitView>) -> Seq<Seq<char>>
    decreases hits.len(),
{
    if hits.len() == 0 {
        Seq::empty()
    } else {
        let rest = hit_stamps(hits.drop_last());
        let h = hits.last();
        if h.kind == HitKind::Match && h.timestamp is Some {
            rest.push(h.timestamp->0)
        } else {
            rest
        }
    }
}

/// Number of match rows.
pub open spec fn match_rows(hits: Seq<HitView>) -> nat
    decreases hits.len(),
{
    if hits.len() == 0 {
        0
    } else {
        match_rows(hits.drop_last()) + if hits.last().kind == HitKind::Match {
            1nat
        } else {
            0nat
        }
    }
}

/// The hits of every session, one after the other.
pub open spec fn all_hits(results: Seq<SessionHits>) -> Seq<HitView>
    decreases results.len(),
{
    if results.len() == 0 {
        Seq::empty()
    } else {
        all_hits(results.drop_last()) + hits_view(results.last().hits@)
    }
}

/// The least timestamp (string order).
pub open spec fn earliest(s: Seq<Seq<char>>) -> Option<Seq<char>>
    decreases s.len(),
{
    if s.len() == 0 {
        None
    } else {
        match earliest(s.drop_last()) {
            None => Some(s.last()),
            Some(m) => if seq_lt(s.last(), m) {
                Some(s.last())
            } else {
                Some(m)
            },
        }
    }
}

/// The greatest timestamp (string order).
pub open spec fn latest(s: Seq<Seq<char>>) -> Option<Seq<char>>
    decreases s.len(),
{
    if s.len() == 0 {
        None
    } else {
        match latest(s.drop_last()) {
            None => Some(s.last()),
            Some(m) => if seq_lt(m, s.last()) {
                Some(s.last())
            } else {
                Some(m)
            },
        }
    }
}

/// The `--stats` line: matches, sessions, and the first and last match times.
pub open spec fn stats_text(results: Seq<SessionHits>, color: bool) -> Seq<char> {
    let hits = all_hits(results);
    let m = match_rows(hits);
    let n = results.len();
    let head = painted(BOLD@, decimal(m), color) + " "@ + (if m == 1 { "match"@ } else { "matches"@ })
        + " · "@ + painted(BOLD@, decimal(n), color) + " "@ + (if n == 1 { "session"@ } else { "sessions"@ });
    match (earliest(hit_stamps(hits)), latest(hit_stamps(hits))) {
        (Some(a), Some(b)) => head + " · "@ + painted(DIM@, stamp_text(a) + " → "@ + stamp_text(b), color)
            + "\n"@,
        _ => head + "\n"@,
    }
}

pub fn emit_stats(results: &Vec<SessionHits>, color: bool) -> (r: String)
    requires
        all_hits(results@).len() <= usize::MAX,
    ensures
        r@ == stats_text(results@, color),
{
    let ghost rs = results@;
    let mut matches: usize = 0;
    let mut first: Option<&str> = None;
    let mut last: Option<&str> = None;
    let mut i: usize = 0;
    while i < results.len()
        invariant
            rs == results@,
            i <= rs.len(),
            all_hits(rs).len() <= usize::MAX,
            matches == match_rows(all_hits(rs.take(i as int))),
            matches <= all_hits(rs.take(i as int)).len(),
            crate::timebounds::opt_view(first) == earliest(hit_stamps(all_hits(rs.take(i as int)))),
            crate::timebounds::opt_view(last) == latest(hit_stamps(all_hits(rs.take(i as int)))),
        decreases rs.len() - i,
    {
        let ghost done = all_hits(rs.take(i as int));
        let hits = &results[i].hits;
        let ghost hv = hits_view(hits@);
        proof {
            assert(rs.take(i + 1).drop_last() =~= rs.take(i as int));
            assert(all_hits(rs.take(i + 1)) == done + hv);
            lemma_all_hits_prefix(rs, i + 1);
        }
        let mut j: usize = 0;
        while j < hits.len()
            invariant
                hv == hits_view(hits@),
                j <= hv.len(),
                (done + hv).len() <= usize::MAX,
                matches == match_rows(done + hv.take(j as int)),
                matches <= (done + hv.take(j as int)).len(),
                crate::timebounds::opt_view(first) == earliest(hit_stamps(done + hv.take(j as int))),
                crate::timebounds::opt_view(last) == latest(hit_stamps(done + hv.take(j as int))),
            decreases hv.len() - j,
        {
            let h = &hits[j];
            let ghost prev = done + hv.take(j as int);
            let ghost next = done + hv.take(j + 1);
            proof {
                assert(next.drop_last() =~= prev);
                assert(next.last() == h@);
                assert(hit_stamps(next) == if h@.kind == HitKind::Match && h@.timestamp is Some {
                    hit_stamps(prev).push(h@.timestamp->0)
                } else {
                    hit_stamps(prev)
                });
                assert(prev.len() < (done + hv).len());
            }
            if h.kind == HitKind::Match {
                matches = matches + 1;
                if let Some(ts) = &h.timestamp {
                    let t: &str = ts.as_str();
                    assert(t@ == h@.timestamp->0);
                    assert(hit_stamps(next) == hit_stamps(prev).push(t@));
                    assert(hit_stamps(next).drop_last() =~= hit_stamps(prev));
                    assert(hit_stamps(next).last() == t@);
                    let earlier = match first {
                        None => true,
                        Some(cur) => {
                            let tv = chars_of(t);
                            let cv = chars_of(cur);
                            let lt = crate::text::range_lt(&tv, 0, tv.len(), &cv, 0, cv.len());
                            assert(tv@.subrange(0, tv@.len() as int) =~= t@);
                            assert(cv@.subrange(0, cv@.len() as int) =~= cur@);
                            lt
                        },
                    };
                    if earlier {
                        first = Some(t);
                    }
                    let later = match last {
                        None => true,
                        Some(cur) => {
                            let tv = chars_of(t);
                            let cv = chars_of(cur);
                            let lt = crate::text::range_lt(&cv, 0, cv.len(), &tv, 0, tv.len());
                            assert(tv@.subrange(0, tv@.len() as int) =~= t@);
                            assert(cv@.subrange(0, cv@.len() as int) =~= cur@);
                            lt
                        },
                    };
                    if later {
                        last = Some(t);
                    }
                    assert(crate::timebounds::opt_view(first) == earliest(hit_stamps(next)));
                    assert(crate::timebounds::opt_view(last) == latest(hit_stamps(next)));
                }
            }
            j = j + 1;
        }
        proof {
            assert(hv.take(j as int) =~= hv);
        }
        i = i + 1;
    }
    proof {
        assert(rs.take(i as int) =~= rs);
    }
    let sessions = results.len();
    let mut out = paint(BOLD, owned_decimal(matches).as_str(), color);
    push_str(&mut out, " ");
    push_str(&mut out, plural(matches, "match", "matches"));
    push_str(&mut out, " · ");
    let p = paint(BOLD, owned_decimal(sessions).as_str(), color);
    push_str(&mut out, p.as_str());
    push_str(&mut out, " ");
    push_str(&mut out, plural(sessions, "session", "sessions"));
    match (first, last) {
        (Some(a), Some(b)) => {
            let mut range = fmt_ts(a);
            push_str(&mut range, " → ");
            let bt = fmt_ts(b);
            push_str(&mut range, bt.as_str());
            push_str(&mut out, " · ");
            let p = paint(DIM, range.as_str(), color);
            push_str(&mut out, p.as_str());
            push_str(&mut out, "\n");
        },
        _ => {
            push_str(&mut out, "\n");
        },
    }
    out
}

proof fn lemma_all_hits_prefix(rs: Seq<SessionHits>, k: int)
    requires
        0 <= k <= rs.len(),
    ensures
        all_hits(rs.take(k)).len() <= all_hits(rs).len(),
    decreases rs.len() - k,
{
    if k < rs.len() {
        lemma_all_hits_prefix(rs, k + 1);
        assert(rs.take(k + 1).drop_last() =~= rs.take(k));
    } else {
        assert(rs.take(k) =~= rs);
    }
}

/// The decimal digits of `n`.
fn owned_decimal(n: usize) -> (r: String)
    ensures
        r@ == decimal(n as nat),
{
    let mut s = String::new();
    push_decimal(&mut s, n as u64);
    s
}

// ---------------------------------------------------------------------------
// The default listing
// ---------------------------------------------------------------------------

/// The session blocks, separated by blank lines.
pub open spec fn listing_text(results: Seq<SessionHits>, color: bool) -> Seq<char>
    decreases results.len(),
{
    if results.len() == 0 {
        Seq::empty()
    } else {
        let r = results.last();
        let block = session_text(r.id@, r.project@, opt_str_view(r.first_prompt), hits_view(r.hits@), color);
        if results.len() == 1 {
            block
        } else {
            listing_text(results.drop_last(), color) + "\n"@ + block
        }
    }
}

pub fn print_listing(results: &Vec<SessionHits>, color: bool) -> (r: String)
    ensures
        r@ == listing_text(results@, color),
{
    let mut out = String::new();
    let mut i: usize = 0;
    while i < results.len()
        invariant
            i <= results@.len(),
            out@ == listing_text(results@.take(i as int), color),
        decreases results@.len() - i,
    {
        proof {
            assert(results@.take(i + 1).drop_last() =~= results@.take(i as int));
            assert(results@.take(i + 1).last() == results@[i as int]);
        }
        if i > 0 {
            push_str(&mut out, "\n");
        }
        let block = print_session(&results[i], color);
        push_str(&mut out, block.as_str());
        i = i + 1;
    }
    assert(results@.take(i as int) =~= results@);
    out
}

// ---------------------------------------------------------------------------
// JSON records
// ---------------------------------------------------------------------------

/// One object of `--json` output: a match row with its session.
#[derive(Debug)]
pub struct JsonRecord {
    pub session: String,
    pub project: String,
    pub timestamp: Option<String>,
    pub turn: Option<usize>,
    /// `tool` for tool output, else the role's label.
    pub role: String,
    pub tool: bool,
    pub snippet: String,
}

pub struct JsonRecordView {
    pub session: Seq<char>,
    pub project: Seq<char>,
    pub timestamp: Option<Seq<char>>,
    pub turn: Option<nat>,
    pub role: Seq<char>,
    pub tool: bool,
    pub snippet: Seq<char>,
}

impl View for JsonRecord {
    type V = JsonRecordView;

    open spec fn view(&self) -> JsonRecordView {
        JsonRecordView {
            session: self.session@,
            project: self.project@,
            timestamp: opt_str_view(self.timestamp),
            turn: crate::commands::grep::opts::opt_nat(self.turn),
            role: self.role@,
            tool: self.tool,
            snippet: self.snippet@,
        }
    }
}

/// The record of a match row of the session `id` in `project`.
pub open spec fn record_of(id: Seq<char>, project: Seq<char>, h: HitView) -> JsonRecordView {
    JsonRecordView {
        session: id,
        project,
        timestamp: h.timestamp,
        turn: h.turn,
        role: hit_label(h),
        tool: h.is_tool,
        snippet: h.snippet,
    }
}

/// The records of the match rows of one session; context rows are dropped.
pub open spec fn session_records(id: Seq<char>, project: Seq<char>, hits: Seq<HitView>) -> Seq<JsonRecordView>
    decreases hits.len(),
{
    if hits.len() == 0 {
        Seq::empty()
    } else {
        let rest = session_records(id, project, hits.drop_last());
        if hits.last().kind == HitKind::Match {
            rest.push(record_of(id, project, hits.last()))
        } else {
            rest
        }
    }
}

/// The records of every session, one session after the other.
pub open spec fn all_records(results: Seq<SessionHits>) -> Seq<JsonRecordView>
    decreases results.len(),
{
    if results.len() == 0 {
        Seq::empty()
    } else {
        let r = results.last();
        all_records(results.drop_last()) + session_records(r.id@, r.project@, hits_view(r.hits@))
    }
}

pub open spec fn records_view(v: Seq<JsonRecord>) -> Seq<JsonRecordView> {
    v.map_values(|r: JsonRecord| r@)
}

fn clone_opt(o: &Option<String>) -> (r: Option<String>)
    ensures
        opt_str_view(r) == opt_str_view(*o),
{
    match o {
        Some(s) => Some(owned(s.as_str())),
        None => None,
    }
}

/// The `--json` records: one per match row, in session and row order.
pub fn json_records(results: &Vec<SessionHits>) -> (r: Vec<JsonRecord>)
    ensures
        records_view(r@) == all_records(results@),
{
    let mut out: Vec<JsonRecord> = Vec::new();
    let mut i: usize = 0;
    while i < results.len()
        invariant
            i <= results@.len(),
            records_view(out@) == all_records(results@.take(i as int)),
        decreases results@.len() - i,
    {
        proof {
            assert(results@.take(i + 1).drop_last() =~= results@.take(i as int));
            assert(results@.take(i + 1).last() == results@[i as int]);
        }
        let r = &results[i];
        let ghost base = records_view(out@);
        let ghost hv = hits_view(r.hits@);
        let mut k: usize = 0;
        while k < r.hits.len()
            invariant
                k <= r.hits@.len(),
                hv == hits_view(r.hits@),
                records_view(out@) == base + session_records(r.id@, r.project@, hv.take(k as int)),
            decreases r.hits@.len() - k,
        {
            proof {
                assert(hv.take(k + 1).drop_last() =~= hv.take(k as int));
                assert(hv.take(k + 1).last() == hv[k as int]);
                assert(hv[k as int] == r.hits@[k as int]@);
            }
            let h = &r.hits[k];
            if h.kind == HitKind::Match {
                let role = if h.is_tool {
                    owned("tool")
                } else {
                    owned(h.role.label())
                };
                let rec = JsonRecord {
                    session: owned(r.id.as_str()),
                    project: owned(r.project.as_str()),
                    timestamp: clone_opt(&h.timestamp),
                    turn: h.turn,
                    role,
                    tool: h.is_tool,
                    snippet: owned(h.snippet.as_str()),
                };
                let ghost before = out@;
                out.push(rec);
                proof {
                    assert(records_view(out@) =~= records_view(before).push(out@.last()@));
                }
            }
            k = k + 1;
        }
        proof {
            assert(hv.take(hv.len() as int) =~= hv);
        }
        i = i + 1;
    }
    assert(results@.take(results@.len() as int) =~= results@);
    out
}

/// The session ids that `-l` lists, in order.
pub fn session_ids(results: &Vec<SessionHits>) -> (r: Vec<String>)
    ensures
        r@.len() == results@.len(),
        forall|i: int| 0 <= i < r@.len() ==> #[trigger] r@[i]@ == results@[i].id@,
{
    let mut out: Vec<String> = Vec::new();
    let mut i: usize = 0;
    while i < results.len()
        invariant
            i <= results@.len(),
            out@.len() == i,
            forall|j: int| 0 <= j < i ==> #[trigger] out@[j]@ == results@[j].id@,
        decreases results@.len() - i,
    {
        out.push(owned(results[i].id.as_str()));
        i = i + 1;
    }
    out
}

/// The exit status of `cch grep`: 1 when no session had a match, as `grep`
/// does.
pub fn grep_exit_code(results: &Vec<SessionHits>) -> (r: i32)
    ensures
        r == if results@.len() == 0 { 1i32 } else { 0i32 },
{
    if results.len() == 0 {
        1
    } else {
        0
    }
}

/// The match count is the number of match rows: context rows never count, so
/// `-A`/`-B`/`-C` leave it unchanged.
pub proof fn law_match_rows_counts_matches(hits: Seq<HitView>)
    ensures
        match_rows(hits) == hits.filter(|h: HitView| h.kind == HitKind::Match).len(),
    decreases hits.len(),
{
    reveal_with_fuel(Seq::filter, 1);
    if hits.len() > 0 {
        law_match_rows_counts_matches(hits.drop_last());
    }
}

/// A context row added anywhere among the hits leaves the match count as it
/// was; a match row adds one.
pub proof fn law_context_rows_do_not_count(a: Seq<HitView>, h: HitView, b: Seq<HitView>)
    ensures
        h.kind != HitKind::Match ==> match_rows(a + seq![h] + b) == match_rows(a + b),
        h.kind == HitKind::Match ==> match_rows(a + seq![h] + b) == match_rows(a + b) + 1,
    decreases b.len(),
{
    if b.len() == 0 {
        assert(a + seq![h] + b =~= a.push(h));
        assert(a + b =~= a);
        assert(a.push(h).drop_last() =~= a);
    } else {
        law_context_rows_do_not_count(a, h, b.drop_last());
        assert((a + seq![h] + b).drop_last() =~= a + seq![h] + b.drop_last());
        assert((a + b).drop_last() =~= a + b.drop_last());
    }
}

} // verus!
