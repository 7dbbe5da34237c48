//! `cch blame <sha>`: link a git commit back to the session that produced it.
//!
//! Cross-references three signals inside the session's project directory:
//!   1. the commit subject appearing verbatim (the assistant usually writes it)
//!   2. the commit SHA (short or full) appearing in the transcript
//!   3. the commit time falling inside the session's activity window
//!
//! Signals are additive; the highest-scoring candidate wins. A `git commit`
//! Bash call carrying the subject or SHA is authorship, the strongest signal.

use vstd::prelude::*;
use crate::text::{
    chars_of, collapse_ws, collapsed, contains, contains_str, decimal, join_strings, joined, push_str, split_lines,
    replace_t, seq_le, seq_lt, short8, short_id8, str_le, str_len, t_to_space, take_chars, utf8_len,
};
use crate::term::{paint, painted, BOLD, CYAN, DIM, GREEN, YELLOW};
use crate::timebounds::{key19, key19_str};
use crate::transcript::{events_view, opt_str_view, Event, EventView, Part, PartView};
use crate::text::owned;

verus! {

broadcast use vstd::string::group_string_axioms;

pub struct Opts {
    /// Commit-ish or `A..B` range. Anything `git show` / `git log` accepts.
    pub sha: String,
}

pub struct Commit {
    pub full_sha: String,
    pub short_sha: String,
    /// UTC, normalized to `YYYY-MM-DDTHH:MM:SS`.
    pub time: String,
    pub subject: String,
    /// The repository's top-level directory.
    pub repo_root: String,
}

pub struct Candidate {
    /// The transcript's path.
    pub path: String,
    /// The session id (the transcript's file stem).
    pub id: String,
    pub first_prompt: Option<String>,
    pub first_ts: Option<String>,
    pub last_ts: Option<String>,
    pub matched_subject: bool,
    pub matched_sha: bool,
    pub window_covers_commit: bool,
    /// The session ran a `git commit` Bash tool_use that carries the subject or
    /// SHA in its argv: hard evidence that it *authored* the commit rather than
    /// mentioned it. Strongest signal; lets cited-only candidates be dropped.
    pub authored_commit: bool,
}

/// A [`Candidate`] with its strings as character sequences.
pub struct CandidateView {
    pub path: Seq<char>,
    pub id: Seq<char>,
    pub first_prompt: Option<Seq<char>>,
    pub first_ts: Option<Seq<char>>,
    pub last_ts: Option<Seq<char>>,
    pub matched_subject: bool,
    pub matched_sha: bool,
    pub window_covers_commit: bool,
    pub authored_commit: bool,
}

impl View for Candidate {
    type V = CandidateView;

    open spec fn view(&self) -> CandidateView {
        CandidateView {
            path: self.path@,
            id: self.id@,
            first_prompt: opt_str_view(self.first_prompt),
            first_ts: opt_str_view(self.first_ts),
            last_ts: opt_str_view(self.last_ts),
            matched_subject: self.matched_subject,
            matched_sha: self.matched_sha,
            window_covers_commit: self.window_covers_commit,
            authored_commit: self.authored_commit,
        }
    }
}

/// Points of a candidate: authorship 200, subject 100, SHA 50, time window 10.
pub open spec fn score(c: CandidateView) -> nat {
    (if c.authored_commit { 200nat } else { 0nat }) + (if c.matched_subject { 100nat } else { 0nat })
        + (if c.matched_sha { 50nat } else { 0nat }) + (if c.window_covers_commit { 10nat } else { 0nat })
}

/// Only the SHA links the session to the commit: typically a later session
/// discussing the commit rather than producing it.
pub open spec fn cite_only(c: CandidateView) -> bool {
    c.matched_sha && !c.authored_commit && !c.matched_subject && !c.window_covers_commit
}

impl Candidate {
    pub fn score(&self) -> (s: u32)
        ensures
            s == score(self@),
    {
        (if self.authored_commit { 200u32 } else { 0u32 }) + (if self.matched_subject { 100u32 } else { 0u32 })
            + (if self.matched_sha { 50u32 } else { 0u32 }) + (if self.window_covers_commit { 10u32 } else { 0u32 })
    }

    /// A "cited only" candidate: the SHA appears in the transcript but nothing
    /// else links the session to the commit.
    pub fn is_cite_only(&self) -> (r: bool)
        ensures
            r == cite_only(self@),
    {
        self.matched_sha && !self.authored_commit && !self.matched_subject && !self.window_covers_commit
    }
}

/// `git log` range syntax: `A..B` or `A...B` (also `HEAD~2..`).
pub fn is_range(s: &str) -> (r: bool)
    ensures
        r == contains(s@, ".."@),
{
    contains_str(s, "..")
}

// ---------------------------------------------------------------------------
// Evaluating one transcript against a commit
// ---------------------------------------------------------------------------

/// The text of a part that the signals look into: text, tool output, or the
/// summary of a tool call.
pub open spec fn part_text(p: PartView) -> Seq<char> {
    match p {
        PartView::Text(s) => s,
        PartView::ToolResult(s) => s,
        PartView::ToolUse { summary, .. } => summary,
    }
}

/// `text` holds the commit subject (subjects under 8 bytes are ignored: they
/// would match everywhere).
pub open spec fn names_subject(text: Seq<char>, c: &Commit) -> bool {
    utf8_len(c.subject@) >= 8 && contains(text, c.subject@)
}

/// `text` holds the short or the full SHA (each only when at least 7 bytes).
pub open spec fn names_sha(text: Seq<char>, c: &Commit) -> bool {
    (utf8_len(c.short_sha@) >= 7 && contains(text, c.short_sha@)) || (utf8_len(c.full_sha@) >= 7
        && contains(text, c.full_sha@))
}

/// A Bash call whose summary holds `git commit` and the subject or a SHA.
pub open spec fn commit_call(p: PartView, c: &Commit) -> bool {
    p matches PartView::ToolUse { name, summary, .. } && name == "Bash"@ && contains(summary, "git commit"@)
        && (names_subject(summary, c) || names_sha(summary, c))
}

pub open spec fn event_names_subject(e: EventView, c: &Commit) -> bool {
    exists|j: int| 0 <= j < e.parts.len() && names_subject(part_text(#[trigger] e.parts[j]), c)
}

pub open spec fn event_names_sha(e: EventView, c: &Commit) -> bool {
    exists|j: int| 0 <= j < e.parts.len() && names_sha(part_text(#[trigger] e.parts[j]), c)
}

pub open spec fn event_commits(e: EventView, c: &Commit) -> bool {
    exists|j: int| 0 <= j < e.parts.len() && commit_call(#[trigger] e.parts[j], c)
}

/// The timestamp of the first event that has one.
pub open spec fn first_stamp(evs: Seq<EventView>) -> Option<Seq<char>>
    decreases evs.len(),
{
    if evs.len() == 0 {
        None
    } else if evs[0].timestamp is Some {
        evs[0].timestamp
    } else {
        first_stamp(evs.drop_first())
    }
}

/// The timestamp of the last event that has one.
pub open spec fn last_stamp(evs: Seq<EventView>) -> Option<Seq<char>>
    decreases evs.len(),
{
    if evs.len() == 0 {
        None
    } else if evs.last().timestamp is Some {
        evs.last().timestamp
    } else {
        last_stamp(evs.drop_last())
    }
}

/// The commit time lies within the session's first and last timestamps, each
/// cut to 19 characters.
pub open spec fn window_covers(first: Option<Seq<char>>, last: Option<Seq<char>>, time: Seq<char>) -> bool {
    match (first, last) {
        (Some(a), Some(b)) => seq_le(key19(a), time) && seq_le(time, key19(b)),
        _ => false,
    }
}

/// What [`evaluate`] finds in `evs` for `c`.
pub open spec fn evaluated(evs: Seq<EventView>, c: &Commit, r: CandidateView) -> bool {
    &&& r.path == Seq::<char>::empty()
    &&& r.id == Seq::<char>::empty()
    &&& r.first_prompt is None
    &&& r.first_ts == first_stamp(evs)
    &&& r.last_ts == last_stamp(evs)
    &&& r.matched_subject == exists|i: int| 0 <= i < evs.len() && event_names_subject(#[trigger] evs[i], c)
    &&& r.matched_sha == exists|i: int| 0 <= i < evs.len() && event_names_sha(#[trigger] evs[i], c)
    &&& r.authored_commit == exists|i: int| 0 <= i < evs.len() && event_commits(#[trigger] evs[i], c)
    &&& r.window_covers_commit == window_covers(first_stamp(evs), last_stamp(evs), c.time@)
}

/// The signals one part gives: subject, SHA, authorship.
fn part_signals(p: &Part, c: &Commit, subject_ok: bool, short_ok: bool, full_ok: bool) -> (r: (
    bool,
    bool,
    bool,
))
    requires
        subject_ok == (utf8_len(c.subject@) >= 8),
        short_ok == (utf8_len(c.short_sha@) >= 7),
        full_ok == (utf8_len(c.full_sha@) >= 7),
    ensures
        r.0 == names_subject(part_text(p@), c),
        r.1 == names_sha(part_text(p@), c),
        r.2 == commit_call(p@, c),
{
    let text: &str = match p {
        Part::Text(s) => s.as_str(),
        Part::ToolResult(s) => s.as_str(),
        Part::ToolUse { summary, .. } => summary.as_str(),
    };
    if text.is_empty() {
        proof {
            crate::text::lemma_utf8_len_bounds(c.subject@);
            crate::text::lemma_utf8_len_bounds(c.short_sha@);
            crate::text::lemma_utf8_len_bounds(c.full_sha@);
            reveal_strlit("git commit");
            if subject_ok {
                assert(!contains(text@, c.subject@)) by {
                    assert(c.subject@.len() > 0);
                }
            }
            if short_ok {
                assert(!contains(text@, c.short_sha@)) by {
                    assert(c.short_sha@.len() > 0);
                }
            }
            if full_ok {
                assert(!contains(text@, c.full_sha@)) by {
                    assert(c.full_sha@.len() > 0);
                }
            }
            assert(!contains(text@, "git commit"@));
        }
        return (false, false, false);
    }
    let subj = subject_ok && contains_str(text, c.subject.as_str());
    let sha = (short_ok && contains_str(text, c.short_sha.as_str())) || (full_ok && contains_str(
        text,
        c.full_sha.as_str(),
    ));
    let authored = match p {
        Part::ToolUse { name, summary, .. } => {
            crate::text::str_eq(name.as_str(), "Bash") && contains_str(summary.as_str(), "git commit")
                && (subj || sha)
        },
        _ => false,
    };
    (subj, sha, authored)
}

/// The signals one event gives: subject, SHA, authorship.
fn event_signals(e: &Event, c: &Commit, subject_ok: bool, short_ok: bool, full_ok: bool) -> (r: (
    bool,
    bool,
    bool,
))
    requires
        subject_ok == (utf8_len(c.subject@) >= 8),
        short_ok == (utf8_len(c.short_sha@) >= 7),
        full_ok == (utf8_len(c.full_sha@) >= 7),
    ensures
        r.0 == event_names_subject(e@, c),
        r.1 == event_names_sha(e@, c),
        r.2 == event_commits(e@, c),
{
    let mut s = false;
    let mut h = false;
    let mut a = false;
    let mut j: usize = 0;
    while j < e.parts.len()
        invariant
            subject_ok == (utf8_len(c.subject@) >= 8),
            short_ok == (utf8_len(c.short_sha@) >= 7),
            full_ok == (utf8_len(c.full_sha@) >= 7),
            j <= e.parts@.len(),
            s == exists|k: int| 0 <= k < j && names_subject(part_text(#[trigger] e@.parts[k]), c),
            h == exists|k: int| 0 <= k < j && names_sha(part_text(#[trigger] e@.parts[k]), c),
            a == exists|k: int| 0 <= k < j && commit_call(#[trigger] e@.parts[k], c),
        decreases e.parts@.len() - j,
    {
        let (ps, ph, pa) = part_signals(&e.parts[j], c, subject_ok, short_ok, full_ok);
        proof {
            assert(e@.parts[j as int] == e.parts@[j as int]@);
        }
        s = s || ps;
        h = h || ph;
        a = a || pa;
        j = j + 1;
    }
    (s, h, a)
}

fn clone_opt(o: &Option<String>) -> (r: Option<String>)
    ensures
        opt_str_view(r) == opt_str_view(*o),
{
    match o {
        Some(s) => Some(owned(s.as_str())),
        None => None,
    }
}

pub proof fn lemma_first_stamp_step(evs: Seq<EventView>, i: int)
    requires
        0 <= i < evs.len(),
    ensures
        first_stamp(evs.take(i + 1)) == if first_stamp(evs.take(i)) is Some {
            first_stamp(evs.take(i))
        } else {
            evs[i].timestamp
        },
    decreases i,
{
    assert(evs.take(i + 1)[0] == evs[0]);
    if i > 0 {
        assert(evs.take(i)[0] == evs[0]);
        assert(evs.take(i + 1).drop_first() =~= evs.drop_first().take(i));
        assert(evs.take(i).drop_first() =~= evs.drop_first().take(i - 1));
        lemma_first_stamp_step(evs.drop_first(), i - 1);
        assert(evs.drop_first()[i - 1] == evs[i]);
    } else {
        assert(evs.take(1).drop_first() =~= Seq::<EventView>::empty());
        assert(evs.take(0) =~= Seq::<EventView>::empty());
    }
}

/// Scores one transcript's events against a commit.
pub fn evaluate(events: &Vec<Event>, commit: &Commit) -> (r: Candidate)
    ensures
        evaluated(events_view(events@), commit, r@),
{
    let ghost evs = events_view(events@);
    let subject_ok = str_len(commit.subject.as_str()) >= 8;
    let short_ok = str_len(commit.short_sha.as_str()) >= 7;
    let full_ok = str_len(commit.full_sha.as_str()) >= 7;
    let mut first_ts: Option<String> = None;
    let mut last_ts: Option<String> = None;
    let mut matched_subject = false;
    let mut matched_sha = false;
    let mut authored_commit = false;
    let mut i: usize = 0;
    while i < events.len()
        invariant
            evs == events_view(events@),
            subject_ok == (utf8_len(commit.subject@) >= 8),
            short_ok == (utf8_len(commit.short_sha@) >= 7),
            full_ok == (utf8_len(commit.full_sha@) >= 7),
            i <= events@.len(),
            opt_str_view(first_ts) == first_stamp(evs.take(i as int)),
            opt_str_view(last_ts) == last_stamp(evs.take(i as int)),
            matched_subject == exists|k: int| 0 <= k < i && event_names_subject(#[trigger] evs[k], commit),
            matched_sha == exists|k: int| 0 <= k < i && event_names_sha(#[trigger] evs[k], commit),
            authored_commit == exists|k: int| 0 <= k < i && event_commits(#[trigger] evs[k], commit),
        decreases events@.len() - i,
    {
        let e = &events[i];
        proof {
            assert(evs[i as int] == e@);
            lemma_first_stamp_step(evs, i as int);
            assert(evs.take(i + 1).drop_last() =~= evs.take(i as int));
        }
        if let Some(ts) = &e.timestamp {
            if first_ts.is_none() {
                first_ts = Some(owned(ts.as_str()));
            }
            last_ts = Some(owned(ts.as_str()));
        }
        let (s, h, a) = event_signals(e, commit, subject_ok, short_ok, full_ok);
        matched_subject = matched_subject || s;
        matched_sha = matched_sha || h;
        authored_commit = authored_commit || a;
        i = i + 1;
    }
    proof {
        assert(evs.take(i as int) =~= evs);
    }
    let window_covers_commit = match (&first_ts, &last_ts) {
        (Some(a), Some(b)) => {
            let a19 = key19_str(a.as_str());
            let b19 = key19_str(b.as_str());
            str_le(a19.as_str(), commit.time.as_str()) && str_le(commit.time.as_str(), b19.as_str())
        },
        _ => false,
    };
    Candidate {
        path: String::new(),
        id: String::new(),
        first_prompt: None,
        first_ts,
        last_ts,
        matched_subject,
        matched_sha,
        window_covers_commit,
        authored_commit,
    }
}

// ---------------------------------------------------------------------------
// Ranking the sessions of a project
// ---------------------------------------------------------------------------

/// A candidate with its transcript's path, id and first prompt (see
/// [`evaluate`]): the score of one session.
pub fn scan_one(path: &str, id: &str, events: &Vec<Event>, commit: &Commit) -> (r: Candidate)
    ensures
        evaluated(events_view(events@), commit, CandidateView { path: Seq::empty(), id: Seq::empty(), first_prompt: None, ..r@ }),
        r@.path == path@,
        r@.id == id@,
        r@.first_prompt == crate::session::first_prompt(events_view(events@)),
{
    let mut body = evaluate(events, commit);
    body.path = owned(path);
    body.id = owned(id);
    body.first_prompt = crate::session::first_user_prompt(events);
    body
}

/// The earliest session start among the candidates, cut to 19 characters; a
/// later one equal to it does not replace it.
pub open spec fn earliest_start(cs: Seq<CandidateView>) -> Option<Seq<char>>
    decreases cs.len(),
{
    if cs.len() == 0 {
        None
    } else {
        let e = earliest_start(cs.drop_last());
        match cs.last().first_ts {
            None => e,
            Some(t) => match e {
                Some(x) => if seq_le(x, key19(t)) {
                    Some(x)
                } else {
                    Some(key19(t))
                },
                None => Some(key19(t)),
            },
        }
    }
}

/// The candidates with a positive score.
pub open spec fn scoring(cs: Seq<CandidateView>) -> Seq<CandidateView>
    decreases cs.len(),
{
    if cs.len() == 0 {
        Seq::empty()
    } else if score(cs.last()) > 0 {
        scoring(cs.drop_last()).push(cs.last())
    } else {
        scoring(cs.drop_last())
    }
}

/// The candidates that are not cited only.
pub open spec fn not_cited(cs: Seq<CandidateView>) -> Seq<CandidateView>
    decreases cs.len(),
{
    if cs.len() == 0 {
        Seq::empty()
    } else if !cite_only(cs.last()) {
        not_cited(cs.drop_last()).push(cs.last())
    } else {
        not_cited(cs.drop_last())
    }
}

/// The candidates worth showing: a positive score, and, when some session
/// authored the commit, not merely citing its SHA.
pub open spec fn shortlist(cs: Seq<CandidateView>) -> Seq<CandidateView> {
    let s = scoring(cs);
    if exists|i: int| 0 <= i < s.len() && #[trigger] s[i].authored_commit {
        not_cited(s)
    } else {
        s
    }
}

/// `a` ranks before `b` on key alone: a higher score, or the same score and a
/// later last timestamp (absent counts lowest).
pub open spec fn outranks(a: CandidateView, b: CandidateView) -> bool {
    score(a) > score(b) || (score(a) == score(b) && crate::order::opt_lt(b.last_ts, a.last_ts))
}

/// `out` is `cs` in the order `p` of its indices, best first, ties in their
/// input order.
pub open spec fn ranked_by(cs: Seq<CandidateView>, out: Seq<CandidateView>, p: Seq<usize>) -> bool {
    &&& p.len() == cs.len()
    &&& out.len() == cs.len()
    &&& forall|k: int| 0 <= k < p.len() ==> #[trigger] p[k] < cs.len()
    &&& forall|k: int| 0 <= k < p.len() ==> out[k] == cs[#[trigger] p[k] as int]
    &&& forall|k: int, l: int|
        0 <= k < l < p.len() ==> outranks(cs[#[trigger] p[k] as int], cs[#[trigger] p[l] as int])
            || (!outranks(cs[p[l] as int], cs[p[k] as int]) && p[k] < p[l])
}

/// `out` is `cs` best first, ties in their input order.
pub open spec fn ranked(cs: Seq<CandidateView>, out: Seq<CandidateView>) -> bool {
    exists|p: Seq<usize>| #[trigger] ranked_by(cs, out, p)
}

fn clone_candidate(c: &Candidate) -> (r: Candidate)
    ensures
        r@ == c@,
{
    Candidate {
        path: owned(c.path.as_str()),
        id: owned(c.id.as_str()),
        first_prompt: clone_opt(&c.first_prompt),
        first_ts: clone_opt(&c.first_ts),
        last_ts: clone_opt(&c.last_ts),
        matched_subject: c.matched_subject,
        matched_sha: c.matched_sha,
        window_covers_commit: c.window_covers_commit,
        authored_commit: c.authored_commit,
    }
}

pub open spec fn cands_view(v: Seq<Candidate>) -> Seq<CandidateView> {
    v.map_values(|c: Candidate| c@)
}

/// Keeps the candidates worth showing (see [`shortlist`]), best first, and
/// the earliest session start of all of them (see [`earliest_start`]).
pub fn rank_candidates(all: Vec<Candidate>) -> (r: (Vec<Candidate>, Option<String>))
    ensures
        opt_str_view(r.1) == earliest_start(cands_view(all@)),
        ranked(shortlist(cands_view(all@)), cands_view(r.0@)),
{
    let ghost cs = cands_view(all@);
    // earliest session start
    let mut earliest: Option<String> = None;
    let mut i: usize = 0;
    while i < all.len()
        invariant
            cs == cands_view(all@),
            i <= all@.len(),
            opt_str_view(earliest) == earliest_start(cs.take(i as int)),
        decreases all@.len() - i,
    {
        proof {
            assert(cs.take(i + 1).drop_last() =~= cs.take(i as int));
            assert(cs.take(i + 1).last() == all@[i as int]@);
        }
        if let Some(ts) = &all[i].first_ts {
            proof {
                assert(all@[i as int]@.first_ts == Some(ts@));
            }
            let short = key19_str(ts.as_str());
            let keep = match &earliest {
                Some(e) => str_le(e.as_str(), short.as_str()),
                None => false,
            };
            if !keep {
                earliest = Some(short);
            }
        }
        i = i + 1;
    }
    assert(cs.take(i as int) =~= cs);
    // positive scores
    let mut kept: Vec<Candidate> = Vec::new();
    let mut any_author = false;
    let mut i: usize = 0;
    while i < all.len()
        invariant
            cs == cands_view(all@),
            i <= all@.len(),
            cands_view(kept@) == scoring(cs.take(i as int)),
            any_author == exists|k: int| 0 <= k < kept@.len() && #[trigger] kept@[k].authored_commit,
        decreases all@.len() - i,
    {
        proof {
            assert(cs.take(i + 1).drop_last() =~= cs.take(i as int));
            assert(cs.take(i + 1).last() == all@[i as int]@);
        }
        if all[i].score() > 0 {
            let ghost before = kept@;
            let c = clone_candidate(&all[i]);
            any_author = any_author || c.authored_commit;
            kept.push(c);
            proof {
                assert(cands_view(kept@) =~= cands_view(before).push(all@[i as int]@));
                if any_author {
                    if !all@[i as int].authored_commit {
                        let k = choose|k: int| 0 <= k < before.len() && #[trigger] before[k].authored_commit;
                        assert(kept@[k] == before[k]);
                    } else {
                        assert(kept@[before.len() as int].authored_commit);
                    }
                } else {
                    assert forall|k: int| 0 <= k < kept@.len() implies !(#[trigger] kept@[k].authored_commit) by {
                        if k < before.len() {
                            assert(kept@[k] == before[k]);
                        }
                    }
                }
            }
        }
        i = i + 1;
    }
    assert(cs.take(i as int) =~= cs);
    proof {
        let s = scoring(cs);
        assert(s == cands_view(kept@));
        assert(s.len() == kept@.len());
        if any_author {
            let k = choose|k: int| 0 <= k < kept@.len() && #[trigger] kept@[k].authored_commit;
            assert(s[k] == kept@[k]@);
            assert(s[k].authored_commit);
        } else {
            assert forall|k: int| 0 <= k < s.len() implies !(#[trigger] s[k].authored_commit) by {
                assert(s[k] == kept@[k]@);
                assert(!kept@[k].authored_commit);
            }
        }
        assert(any_author == exists|k: int| 0 <= k < s.len() && #[trigger] s[k].authored_commit);
    }
    // drop cited-only candidates when a session authored the commit
    let mut short: Vec<Candidate> = Vec::new();
    if any_author {
        let ghost ks = cands_view(kept@);
        let mut i: usize = 0;
        while i < kept.len()
            invariant
                ks == cands_view(kept@),
                i <= kept@.len(),
                cands_view(short@) == not_cited(ks.take(i as int)),
            decreases kept@.len() - i,
        {
            proof {
                assert(ks.take(i + 1).drop_last() =~= ks.take(i as int));
                assert(ks.take(i + 1).last() == kept@[i as int]@);
            }
            if !kept[i].is_cite_only() {
                let ghost before = short@;
                short.push(clone_candidate(&kept[i]));
                assert(cands_view(short@) =~= cands_view(before).push(kept@[i as int]@));
            }
            i = i + 1;
        }
        assert(ks.take(i as int) =~= ks);
    } else {
        short = kept;
    }
    let ghost sl = cands_view(short@);
    assert(sl == shortlist(cs));
    // best first, ties in order
    let mut keys: Vec<crate::order::SortKey> = Vec::new();
    let mut i: usize = 0;
    while i < short.len()
        invariant
            sl == cands_view(short@),
            i <= short@.len(),
            keys@.len() == i,
            forall|k: int| 0 <= k < i ==> (#[trigger] keys@[k]).major == score(sl[k]) && opt_str_view(keys@[k].minor) == sl[k].last_ts,
        decreases short@.len() - i,
    {
        keys.push(crate::order::SortKey { major: short[i].score() as u128, minor: clone_opt(&short[i].last_ts) });
        i = i + 1;
    }
    let order = crate::order::stable_order(&keys, true);
    let mut out: Vec<Candidate> = Vec::new();
    let mut k: usize = 0;
    while k < order.len()
        invariant
            sl == cands_view(short@),
            keys@.len() == sl.len(),
            crate::order::stably_ordered(keys@, true, order@),
            k <= order@.len(),
            out@.len() == k,
            forall|m: int| 0 <= m < k ==> (#[trigger] out@[m])@ == sl[order@[m] as int],
        decreases order@.len() - k,
    {
        let c = clone_candidate(&short[order[k]]);
        out.push(c);
        k = k + 1;
    }
    proof {
        let p = order@;
        let ov = cands_view(out@);
        assert forall|a: int, b: int| 0 <= a < b < p.len() implies outranks(sl[#[trigger] p[a] as int], sl[#[trigger] p[b] as int])
            || (!outranks(sl[p[b] as int], sl[p[a] as int]) && p[a] < p[b]) by {
            assert(crate::order::precedes(keys@, true, p[a] as int, p[b] as int));
            let x = sl[p[a] as int];
            let y = sl[p[b] as int];
            if !outranks(x, y) {
                assert(crate::order::key_eq(keys@[p[a] as int], keys@[p[b] as int]));
            }
        }
        assert forall|m: int| 0 <= m < p.len() implies ov[m] == sl[#[trigger] p[m] as int] by {
            assert(ov[m] == out@[m]@);
        }
        assert(ranked_by(sl, ov, p));
    }
    (out, earliest)
}

// ---------------------------------------------------------------------------
// What `cch blame` prints
// ---------------------------------------------------------------------------

/// The candidate is the author: it ran the commit, or its transcript holds
/// the subject inside a window that covers the commit time.
pub open spec fn authoring(c: CandidateView) -> bool {
    c.authored_commit || (c.matched_subject && c.window_covers_commit)
}

/// Some candidate is the author.
pub open spec fn authoring_evidence(cs: Seq<CandidateView>) -> bool {
    exists|i: int| 0 <= i < cs.len() && authoring(#[trigger] cs[i])
}

pub fn has_authoring_evidence(cs: &Vec<Candidate>) -> (r: bool)
    ensures
        r == authoring_evidence(cands_view(cs@)),
{
    let ghost v = cands_view(cs@);
    let mut i: usize = 0;
    while i < cs.len()
        invariant
            v == cands_view(cs@),
            i <= cs@.len(),
            forall|k: int| 0 <= k < i ==> !authoring(#[trigger] v[k]),
        decreases cs@.len() - i,
    {
        proof {
            assert(v[i as int] == cs@[i as int]@);
        }
        if cs[i].authored_commit || (cs[i].matched_subject && cs[i].window_covers_commit) {
            return true;
        }
        i = i + 1;
    }
    false
}

/// The evidence tags of a candidate, painted and separated by spaces.
pub open spec fn tags_text(c: CandidateView, color: bool) -> Seq<char> {
    let parts = (if c.authored_commit { seq![painted(GREEN@, "authored"@, color)] } else { Seq::empty() })
        + (if c.matched_subject { seq![painted(GREEN@, "subject"@, color)] } else { Seq::empty() })
        + (if c.matched_sha { seq![painted(GREEN@, "sha"@, color)] } else { Seq::empty() })
        + (if c.window_covers_commit { seq![painted(YELLOW@, "time-window"@, color)] } else { Seq::empty() });
    joined(parts, " "@)
}

pub fn evidence_tags(c: &Candidate, color: bool) -> (r: String)
    ensures
        r@ == tags_text(c@, color),
{
    let mut parts: Vec<String> = Vec::new();
    if c.authored_commit {
        parts.push(paint(GREEN, "authored", color));
    }
    if c.matched_subject {
        parts.push(paint(GREEN, "subject", color));
    }
    if c.matched_sha {
        parts.push(paint(GREEN, "sha", color));
    }
    if c.window_covers_commit {
        parts.push(paint(YELLOW, "time-window", color));
    }
    let r = join_strings(&parts, " ");
    assert(parts@.map_values(|x: String| x@) =~= (if c.authored_commit {
        seq![painted(GREEN@, "authored"@, color)]
    } else {
        Seq::empty()
    }) + (if c.matched_subject {
        seq![painted(GREEN@, "subject"@, color)]
    } else {
        Seq::empty()
    }) + (if c.matched_sha {
        seq![painted(GREEN@, "sha"@, color)]
    } else {
        Seq::empty()
    }) + (if c.window_covers_commit {
        seq![painted(YELLOW@, "time-window"@, color)]
    } else {
        Seq::empty()
    }));
    r
}

/// A timestamp cut to 19 characters, `T` turned into a space.
pub open spec fn short_stamp(t: Option<Seq<char>>) -> Seq<char> {
    match t {
        Some(x) => t_to_space(key19(x)),
        None => Seq::empty(),
    }
}

/// `first → last` of a candidate's session, or nothing when both are empty.
pub open spec fn window_text(c: CandidateView) -> Seq<char> {
    let a = short_stamp(c.first_ts);
    let b = short_stamp(c.last_ts);
    if a.len() == 0 && b.len() == 0 {
        Seq::empty()
    } else {
        a + " → "@ + b
    }
}

fn short_stamp_of(t: &Option<String>) -> (r: String)
    ensures
        r@ == short_stamp(opt_str_view(*t)),
{
    match t {
        Some(x) => {
            let k = key19_str(x.as_str());
            replace_t(k.as_str())
        },
        None => String::new(),
    }
}

pub fn fmt_window(c: &Candidate) -> (r: String)
    ensures
        r@ == window_text(c@),
{
    let a = short_stamp_of(&c.first_ts);
    let b = short_stamp_of(&c.last_ts);
    if a.as_str().is_empty() && b.as_str().is_empty() {
        return String::new();
    }
    let mut out = a;
    push_str(&mut out, " → ");
    push_str(&mut out, b.as_str());
    out
}

/// The commit line, the subject line when there is a subject, and a blank line.
pub open spec fn commit_header(c: &Commit, color: bool) -> Seq<char> {
    painted(DIM@, "commit"@, color) + " "@ + painted(BOLD@, c.short_sha@, color) + " "@ + painted(
        DIM@,
        t_to_space(c.time@),
        color,
    ) + "\n"@ + (if c.subject@.len() > 0 {
        "  "@ + c.subject@ + "\n"@
    } else {
        Seq::empty()
    }) + "\n"@
}

fn push_commit_header(out: &mut String, c: &Commit, color: bool)
    ensures
        final(out)@ == old(out)@ + commit_header(c, color),
{
    let a = paint(DIM, "commit", color);
    push_str(out, a.as_str());
    push_str(out, " ");
    let b = paint(BOLD, c.short_sha.as_str(), color);
    push_str(out, b.as_str());
    push_str(out, " ");
    let t = replace_t(c.time.as_str());
    let d = paint(DIM, t.as_str(), color);
    push_str(out, d.as_str());
    push_str(out, "\n");
    if !c.subject.as_str().is_empty() {
        push_str(out, "  ");
        push_str(out, c.subject.as_str());
        push_str(out, "\n");
    }
    push_str(out, "\n");
    assert(out@ =~= old(out)@ + commit_header(c, color));
}

/// A first prompt on one line, its words cut to 110 characters.
#[verifier::opaque]
pub open spec fn prompt_preview(p: Seq<char>, color: bool) -> Seq<char> {
    let flat = collapsed(p);
    "  "@ + painted(DIM@, flat.take(if flat.len() < 110 { flat.len() as int } else { 110 }), color)
        + painted(DIM@, if flat.len() > 110 { "…"@ } else { ""@ }, color) + "\n"@
}

/// The first line of a candidate: short id, tags and window.
#[verifier::opaque]
pub open spec fn candidate_line(c: CandidateView, color: bool) -> Seq<char> {
    painted(BOLD@, short8(c.id), color) + "  "@ + painted(CYAN@, tags_text(c, color), color) + "  "@
        + painted(DIM@, window_text(c), color) + "\n"@
}

/// One candidate of the result: its line, its first prompt, and for the
/// winner a `cch show` hint.
pub open spec fn candidate_block(c: CandidateView, winner: bool, color: bool) -> Seq<char> {
    candidate_line(c, color) + (match c.first_prompt {
        Some(p) => prompt_preview(p, color),
        None => Seq::empty(),
    }) + (if winner {
        "  "@ + painted(DIM@, "→ cch show "@ + short8(c.id), color) + "\n"@
    } else {
        Seq::empty()
    })
}

/// The blocks of the candidates, the first one the winner.
pub open spec fn candidate_blocks(cs: Seq<CandidateView>, color: bool) -> Seq<char>
    decreases cs.len(),
{
    if cs.len() == 0 {
        Seq::empty()
    } else {
        candidate_blocks(cs.drop_last(), color) + candidate_block(cs.last(), cs.len() == 1, color)
    }
}

/// What `cch blame` prints when a session authored the commit: the commit
/// and the three best candidates.
pub open spec fn result_text(c: &Commit, cs: Seq<CandidateView>, color: bool) -> Seq<char> {
    commit_header(c, color) + candidate_blocks(cs.take(if cs.len() < 3 { cs.len() as int } else { 3 }), color)
}

fn push_prompt_preview(out: &mut String, p: &str, color: bool)
    ensures
        final(out)@ == old(out)@ + prompt_preview(p@, color),
{
    let flat = collapse_ws(p);
    let preview = take_chars(flat.as_str(), 110);
    let long = chars_of(flat.as_str()).len() > 110;
    push_str(out, "  ");
    let e = paint(DIM, preview.as_str(), color);
    push_str(out, e.as_str());
    let ell: &str = if long {
        "…"
    } else {
        ""
    };
    let f = paint(DIM, ell, color);
    push_str(out, f.as_str());
    push_str(out, "\n");
    proof {
        reveal(prompt_preview);
    }
}

fn push_candidate_line(out: &mut String, c: &Candidate, sid: &String, color: bool)
    requires
        sid@ == short8(c@.id),
    ensures
        final(out)@ == old(out)@ + candidate_line(c@, color),
{
    let a = paint(BOLD, sid.as_str(), color);
    push_str(out, a.as_str());
    push_str(out, "  ");
    let tags = evidence_tags(c, color);
    let b = paint(CYAN, tags.as_str(), color);
    push_str(out, b.as_str());
    push_str(out, "  ");
    let w = fmt_window(c);
    let d = paint(DIM, w.as_str(), color);
    push_str(out, d.as_str());
    push_str(out, "\n");
    proof {
        reveal(candidate_line);
    }
}

fn push_candidate_block(out: &mut String, c: &Candidate, winner: bool, color: bool)
    ensures
        final(out)@ == old(out)@ + candidate_block(c@, winner, color),
{
    let sid = short_id8(c.id.as_str());
    push_candidate_line(out, c, &sid, color);
    let ghost mid = out@;
    if let Some(p) = &c.first_prompt {
        push_prompt_preview(out, p.as_str(), color);
    }
    let ghost mid2 = out@;
    if winner {
        let mut hint = owned("→ cch show ");
        push_str(&mut hint, sid.as_str());
        push_str(out, "  ");
        let g = paint(DIM, hint.as_str(), color);
        push_str(out, g.as_str());
        push_str(out, "\n");
    }
    proof {
        reveal_strlit("");
        assert(mid2 =~= mid + match c@.first_prompt {
            Some(p) => prompt_preview(p, color),
            None => Seq::<char>::empty(),
        });
        assert(out@ =~= old(out)@ + candidate_block(c@, winner, color));
    }
}

/// One line per citing session: short id and window, dimmed.
pub open spec fn cite_line(c: CandidateView, color: bool) -> Seq<char> {
    "  "@ + painted(DIM@, short8(c.id), color) + "  "@ + painted(DIM@, window_text(c), color) + "\n"@
}

fn push_cite_line(out: &mut String, c: &Candidate, color: bool)
    ensures
        final(out)@ == old(out)@ + cite_line(c@, color),
{
    let sid = short_id8(c.id.as_str());
    push_str(out, "  ");
    let a = paint(DIM, sid.as_str(), color);
    push_str(out, a.as_str());
    push_str(out, "  ");
    let w = fmt_window(c);
    let b = paint(DIM, w.as_str(), color);
    push_str(out, b.as_str());
    push_str(out, "\n");
}

pub fn print_result(commit: &Commit, candidates: &Vec<Candidate>, color: bool) -> (r: String)
    ensures
        r@ == result_text(commit, cands_view(candidates@), color),
{
    let ghost cs = cands_view(candidates@);
    let mut out = String::new();
    push_commit_header(&mut out, commit, color);
    let ghost head = out@;
    let n: usize = if candidates.len() < 3 {
        candidates.len()
    } else {
        3
    };
    let mut i: usize = 0;
    while i < n
        invariant
            cs == cands_view(candidates@),
            n <= candidates@.len(),
            i <= n,
            out@ == head + candidate_blocks(cs.take(i as int), color),
        decreases n - i,
    {
        proof {
            assert(cs.take(i + 1).drop_last() =~= cs.take(i as int));
            assert(cs.take(i + 1).last() == candidates@[i as int]@);
        }
        push_candidate_block(&mut out, &candidates[i], i == 0, color);
        i = i + 1;
    }
    out
}

/// The matches of the SHA among the candidates.
pub open spec fn citing(cs: Seq<CandidateView>) -> Seq<CandidateView>
    decreases cs.len(),
{
    if cs.len() == 0 {
        Seq::empty()
    } else if cs.last().matched_sha {
        citing(cs.drop_last()).push(cs.last())
    } else {
        citing(cs.drop_last())
    }
}

/// Why no session is named: the commit predates the oldest retained session,
/// or its session is no longer retained, or there are no sessions at all.
pub open spec fn missing_reason(time: Seq<char>, earliest: Option<Seq<char>>) -> Seq<char> {
    if earliest matches Some(e) && seq_lt(key19(time), e) {
        "No session produced this commit — it predates the oldest retained session for this project (likely outside the assistant's retention window)."@
    } else if earliest is Some {
        "No session produced this commit — the authoring session is no longer retained."@
    } else {
        "No session produced this commit."@
    }
}

/// The lines for the sessions that cite the SHA.
pub open spec fn cite_lines(cs: Seq<CandidateView>, color: bool) -> Seq<char>
    decreases cs.len(),
{
    if cs.len() == 0 {
        Seq::empty()
    } else {
        cite_lines(cs.drop_last(), color) + cite_line(cs.last(), color)
    }
}

/// What `cch blame` prints (on stderr) when no session authored the commit.
pub open spec fn missing_text(c: &Commit, cs: Seq<CandidateView>, earliest: Option<Seq<char>>, color: bool) -> Seq<char> {
    let cites = citing(cs);
    commit_header(c, color) + painted(YELLOW@, missing_reason(c.time@, earliest), color) + "\n"@ + (if cites.len()
        > 0 {
        "\n"@ + painted(DIM@, "SHA mentioned in "@ + decimal(cites.len()) + " later session(s):"@, color) + "\n"@
            + cite_lines(cites.take(if cites.len() < 3 { cites.len() as int } else { 3 }), color)
    } else {
        Seq::empty()
    })
}

pub fn print_missing_author(commit: &Commit, candidates: &Vec<Candidate>, earliest: Option<&str>, color: bool) -> (r: String)
    ensures
        r@ == missing_text(commit, cands_view(candidates@), crate::timebounds::opt_view(earliest), color),
{
    let ghost cs = cands_view(candidates@);
    let mut out = String::new();
    push_commit_header(&mut out, commit, color);
    let commit_time = key19_str(commit.time.as_str());
    let predates = match earliest {
        Some(e) => {
            let a = chars_of(commit_time.as_str());
            let b = chars_of(e);
            let lt = crate::text::range_lt(&a, 0, a.len(), &b, 0, b.len());
            assert(a@.subrange(0, a@.len() as int) =~= commit_time@);
            assert(b@.subrange(0, b@.len() as int) =~= e@);
            lt
        },
        None => false,
    };
    let msg: &str = if predates {
        "No session produced this commit — it predates the oldest retained session for this project (likely outside the assistant's retention window)."
    } else if earliest.is_some() {
        "No session produced this commit — the authoring session is no longer retained."
    } else {
        "No session produced this commit."
    };
    let m = paint(YELLOW, msg, color);
    push_str(&mut out, m.as_str());
    push_str(&mut out, "\n");
    let ghost head = out@;
    // the candidates that cite the SHA
    let mut cites: Vec<usize> = Vec::new();
    let mut i: usize = 0;
    while i < candidates.len()
        invariant
            cs == cands_view(candidates@),
            i <= candidates@.len(),
            forall|k: int| 0 <= k < cites@.len() ==> #[trigger] cites@[k] < candidates@.len(),
            cites@.map_values(|k: usize| cs[k as int]) == citing(cs.take(i as int)),
        decreases candidates@.len() - i,
    {
        proof {
            assert(cs.take(i + 1).drop_last() =~= cs.take(i as int));
            assert(cs.take(i + 1).last() == candidates@[i as int]@);
        }
        if candidates[i].matched_sha {
            let ghost before = cites@;
            cites.push(i);
            assert(cites@.map_values(|k: usize| cs[k as int]) =~= before.map_values(|k: usize| cs[k as int]).push(
                cs[i as int],
            ));
        }
        i = i + 1;
    }
    assert(cs.take(i as int) =~= cs);
    let ghost cv = citing(cs);
    if cites.len() > 0 {
        push_str(&mut out, "\n");
        let mut line = owned("SHA mentioned in ");
        crate::text::push_decimal(&mut line, cites.len() as u64);
        push_str(&mut line, " later session(s):");
        let p = paint(DIM, line.as_str(), color);
        push_str(&mut out, p.as_str());
        push_str(&mut out, "\n");
        let ghost head2 = out@;
        let n: usize = if cites.len() < 3 {
            cites.len()
        } else {
            3
        };
        let mut j: usize = 0;
        while j < n
            invariant
                cs == cands_view(candidates@),
                cv == citing(cs),
                n <= cites@.len(),
                j <= n,
                forall|k: int| 0 <= k < cites@.len() ==> #[trigger] cites@[k] < candidates@.len(),
                    cites@.map_values(|k: usize| cs[k as int]) == cv,
                out@ == head2 + cite_lines(cv.take(j as int), color),
            decreases n - j,
        {
            let c = &candidates[cites[j]];
            proof {
                assert(cv.take(j + 1).drop_last() =~= cv.take(j as int));
                assert(cv.take(j + 1).last() == cv[j as int]);
                assert(cv[j as int] == cs[cites@[j as int] as int]);
                assert(cs[cites@[j as int] as int] == c@);
            }
            push_cite_line(&mut out, c, color);
            j = j + 1;
        }
    } else {
        assert(out@ =~= head + Seq::<char>::empty());
    }
    out
}

/// What `cch blame <sha>` prints for the candidates of a project: on stdout
/// the commit and the best candidates (exit 0) when some shortlisted session
/// authored it; otherwise, on stderr, why none did (exit 1).
pub struct BlameOutcome {
    pub stdout: String,
    pub stderr: String,
    pub code: i32,
}

/// Ranks the candidates (see [`rank_candidates`]) and renders the outcome.
pub fn blame_report(commit: &Commit, all: Vec<Candidate>, color: bool) -> (r: BlameOutcome)
    ensures
        exists|ranked_out: Seq<CandidateView>|
            #![trigger ranked(shortlist(cands_view(all@)), ranked_out)]
            {
                &&& ranked(shortlist(cands_view(all@)), ranked_out)
                &&& if authoring_evidence(ranked_out) {
                    &&& r.code == 0
                    &&& r.stdout@ == result_text(commit, ranked_out, color)
                    &&& r.stderr@ == Seq::<char>::empty()
                } else {
                    &&& r.code == 1
                    &&& r.stdout@ == Seq::<char>::empty()
                    &&& r.stderr@ == missing_text(
                        commit,
                        ranked_out,
                        earliest_start(cands_view(all@)),
                        color,
                    )
                }
            },
{
    let (cands, earliest) = rank_candidates(all);
    let ghost rv = cands_view(cands@);
    let r = if has_authoring_evidence(&cands) {
        BlameOutcome { stdout: print_result(commit, &cands, color), stderr: String::new(), code: 0 }
    } else {
        let e: Option<&str> = match &earliest {
            Some(x) => Some(x.as_str()),
            None => None,
        };
        assert(crate::timebounds::opt_view(e) == opt_str_view(earliest));
        BlameOutcome { stdout: String::new(), stderr: print_missing_author(commit, &cands, e, color), code: 1 }
    };
    proof {
        assert(ranked(shortlist(cands_view(all@)), rv));
        assert(if authoring_evidence(rv) {
            &&& r.code == 0
            &&& r.stdout@ == result_text(commit, rv, color)
            &&& r.stderr@ == Seq::<char>::empty()
        } else {
            &&& r.code == 1
            &&& r.stdout@ == Seq::<char>::empty()
            &&& r.stderr@ == missing_text(commit, rv, earliest_start(cands_view(all@)), color)
        });
    }
    r
}

// ---------------------------------------------------------------------------
// `cch blame A..B`: one row per commit
// ---------------------------------------------------------------------------

/// The first line of a range report.
pub open spec fn range_header_text(range: Seq<char>, n: nat, color: bool) -> Seq<char> {
    painted(DIM@, "range"@, color) + " "@ + painted(BOLD@, range, color) + "  "@ + painted(
        DIM@,
        decimal(n) + " commit(s)"@,
        color,
    ) + "\n"@
}

pub fn range_header(range: &str, n: usize, color: bool) -> (r: String)
    ensures
        r@ == range_header_text(range@, n as nat, color),
{
    let mut out = paint(DIM, "range", color);
    push_str(&mut out, " ");
    let b = paint(BOLD, range, color);
    push_str(&mut out, b.as_str());
    push_str(&mut out, "  ");
    let mut count = String::new();
    crate::text::push_decimal(&mut count, n as u64);
    push_str(&mut count, " commit(s)");
    let c = paint(DIM, count.as_str(), color);
    push_str(&mut out, c.as_str());
    push_str(&mut out, "\n");
    out
}

/// The session column of a row: the short id, blank when it repeats the row
/// above (runs of one session read as a group), dashes without a match.
pub open spec fn sid_cell(short: Option<Seq<char>>, last: Option<Seq<char>>, color: bool) -> Seq<char> {
    match short {
        Some(id) => if last == Some(id) {
            painted(DIM@, crate::text::spaces(8), color)
        } else {
            painted(BOLD@, id, color)
        },
        None => painted(DIM@, "--------"@, color),
    }
}

/// A row: short SHA, session, evidence tags (or `no match`), subject.
pub open spec fn range_row_text(c: &Commit, best: Option<CandidateView>, last: Option<Seq<char>>, color: bool) -> Seq<char> {
    let short = match best {
        Some(b) => Some(short8(b.id)),
        None => None,
    };
    let tags = match best {
        Some(b) => tags_text(b, color),
        None => painted(DIM@, "no match"@, color),
    };
    "  "@ + painted(DIM@, c.short_sha@, color) + "  "@ + sid_cell(short, last, color) + "  "@ + tags + "  "@
        + c.subject@ + "\n"@
}

/// The last line of a range report: how many commits were mapped.
pub open spec fn range_footer_text(matched: nat, total: nat, color: bool) -> Seq<char> {
    "\n"@ + painted(DIM@, decimal(matched) + "/"@ + decimal(total) + " commit(s) mapped to a session."@, color)
        + "\n"@
}

/// A range report in progress: the session of the previous row and how many
/// commits found one.
pub struct RangeReport {
    pub last_sid: Option<String>,
    pub matched: usize,
    pub total: usize,
    pub color: bool,
}

impl RangeReport {
    pub fn new(total: usize, color: bool) -> (r: RangeReport)
        ensures
            r.last_sid is None,
            r.matched == 0,
            r.total == total,
            r.color == color,
    {
        RangeReport { last_sid: None, matched: 0, total, color }
    }

    /// The row of one commit and its best candidate, if any.
    pub fn row(&mut self, commit: &Commit, best: Option<&Candidate>) -> (r: String)
        requires
            old(self).matched < usize::MAX,
        ensures
            r@ == range_row_text(
                commit,
                match best {
                    Some(b) => Some(b@),
                    None => None,
                },
                opt_str_view(old(self).last_sid),
                old(self).color,
            ),
            opt_str_view(final(self).last_sid) == match best {
                Some(b) => Some(short8(b@.id)),
                None => None,
            },
            final(self).matched == old(self).matched + if best is Some { 1nat } else { 0nat },
            final(self).total == old(self).total,
            final(self).color == old(self).color,
    {
        let color = self.color;
        let short: Option<String> = match best {
            Some(b) => Some(short_id8(b.id.as_str())),
            None => None,
        };
        let cell = match &short {
            Some(id) => {
                let same = match &self.last_sid {
                    Some(l) => crate::text::str_eq(l.as_str(), id.as_str()),
                    None => false,
                };
                if same {
                    let mut blank = String::new();
                    crate::text::push_spaces(&mut blank, 8);
                    paint(DIM, blank.as_str(), color)
                } else {
                    paint(BOLD, id.as_str(), color)
                }
            },
            None => paint(DIM, "--------", color),
        };
        let tags = match best {
            Some(b) => evidence_tags(b, color),
            None => paint(DIM, "no match", color),
        };
        let mut out = owned("  ");
        let a = paint(DIM, commit.short_sha.as_str(), color);
        push_str(&mut out, a.as_str());
        push_str(&mut out, "  ");
        push_str(&mut out, cell.as_str());
        push_str(&mut out, "  ");
        push_str(&mut out, tags.as_str());
        push_str(&mut out, "  ");
        push_str(&mut out, commit.subject.as_str());
        push_str(&mut out, "\n");
        if best.is_some() {
            self.matched = self.matched + 1;
        }
        self.last_sid = short;
        out
    }

    /// The footer, and the exit code: 1 when no commit found a session.
    pub fn finish(&self) -> (r: (String, i32))
        ensures
            r.0@ == range_footer_text(self.matched as nat, self.total as nat, self.color),
            r.1 == if self.matched == 0 { 1i32 } else { 0i32 },
    {
        let mut line = String::new();
        crate::text::push_decimal(&mut line, self.matched as u64);
        push_str(&mut line, "/");
        crate::text::push_decimal(&mut line, self.total as u64);
        push_str(&mut line, " commit(s) mapped to a session.");
        let mut out = owned("\n");
        let p = paint(DIM, line.as_str(), self.color);
        push_str(&mut out, p.as_str());
        push_str(&mut out, "\n");
        (out, if self.matched == 0 { 1 } else { 0 })
    }
}

// ---------------------------------------------------------------------------
// Reading `git show -s --format=%H%n%h%n%ct%n%s`
// ---------------------------------------------------------------------------

/// The fields `git show` printed: full SHA, short SHA, commit time (seconds
/// since the epoch) and subject.
pub struct ShowFields {
    pub full_sha: String,
    pub short_sha: String,
    pub seconds: u64,
    pub subject: String,
}

/// Line `i` of `ls` trimmed, or `dflt` when there are fewer lines.
pub open spec fn line_or(ls: Seq<Seq<char>>, i: int, dflt: Seq<char>) -> Seq<char> {
    if i < ls.len() {
        crate::text::trim(ls[i])
    } else {
        dflt
    }
}

/// The fields of `git show` output: one per line, trimmed; a missing or
/// unreadable time counts 0.
pub open spec fn show_fields(out: Seq<char>) -> (Seq<char>, Seq<char>, nat, Seq<char>) {
    let ls = crate::text::lines(out);
    let ct = match crate::turns::uint_of(line_or(ls, 2, "0"@)) {
        Some(n) => n as nat,
        None => 0,
    };
    (line_or(ls, 0, ""@), line_or(ls, 1, ""@), ct, line_or(ls, 3, ""@))
}

fn trimmed_line(ls: &Vec<String>, i: usize, dflt: &str) -> (r: String)
    ensures
        r@ == line_or(ls@.map_values(|x: String| x@), i as int, dflt@),
{
    if i < ls.len() {
        let v = chars_of(ls[i].as_str());
        let (lo, hi) = crate::text::trim_range(&v);
        proof {
            assert(ls@.map_values(|x: String| x@)[i as int] == ls@[i as int]@);
        }
        crate::text::string_of_range(&v, lo, hi)
    } else {
        owned(dflt)
    }
}

pub fn parse_show_output(out: &str) -> (r: ShowFields)
    ensures
        (r.full_sha@, r.short_sha@, r.seconds as nat, r.subject@) == show_fields(out@),
{
    let ls = split_lines(out);
    let full_sha = trimmed_line(&ls, 0, "");
    let short_sha = trimmed_line(&ls, 1, "");
    let ct = trimmed_line(&ls, 2, "0");
    let seconds = match crate::turns::parse_u64_exact(ct.as_str()) {
        Some(n) => n,
        None => 0,
    };
    let subject = trimmed_line(&ls, 3, "");
    ShowFields { full_sha, short_sha, seconds, subject }
}

/// The commit `git show` described, in the repository `repo_root`; `None`
/// when it printed no SHA. The time is formatted as UTC.
pub fn commit_from_fields(f: ShowFields, repo_root: &str) -> (r: Option<Commit>)
    requires
        f.seconds <= i64::MAX,
    ensures
        match r {
            Some(c) => {
                &&& f.full_sha@.len() > 0
                &&& c.full_sha@ == f.full_sha@
                &&& c.short_sha@ == f.short_sha@
                &&& c.subject@ == f.subject@
                &&& c.time@ == crate::timebounds::utc_text(f.seconds as int)
                &&& c.repo_root@ == repo_root@
            },
            None => f.full_sha@.len() == 0,
        },
{
    if f.full_sha.as_str().is_empty() {
        return None;
    }
    let time = crate::timebounds::format_utc(f.seconds as i64);
    Some(Commit {
        full_sha: f.full_sha,
        short_sha: f.short_sha,
        time,
        subject: f.subject,
        repo_root: owned(repo_root),
    })
}

// ---------------------------------------------------------------------------
// Laws of the ranking
// ---------------------------------------------------------------------------

/// Authoring dominates: a session that ran the `git commit` scores higher
/// than any session that did not, whatever else links the latter.
pub proof fn law_authorship_dominates(a: CandidateView, b: CandidateView)
    requires
        a.authored_commit,
        !b.authored_commit,
    ensures
        score(a) >= 200,
        score(b) <= 160,
        score(a) > score(b),
{
}

/// Every shortlisted candidate scores above zero, and once some candidate
/// authored the commit, none that merely cites its SHA is kept.
pub proof fn law_shortlist(cs: Seq<CandidateView>)
    ensures
        forall|i: int| 0 <= i < shortlist(cs).len() ==> score(#[trigger] shortlist(cs)[i]) > 0,
        (exists|i: int| 0 <= i < cs.len() && #[trigger] cs[i].authored_commit) ==> forall|i: int|
            0 <= i < shortlist(cs).len() ==> !cite_only(#[trigger] shortlist(cs)[i]),
{
    lemma_scoring_props(cs);
    lemma_not_cited_props(scoring(cs));
    if exists|i: int| 0 <= i < cs.len() && #[trigger] cs[i].authored_commit {
        let i = choose|i: int| 0 <= i < cs.len() && #[trigger] cs[i].authored_commit;
        lemma_scoring_keeps(cs, i);
    }
}

proof fn lemma_scoring_props(cs: Seq<CandidateView>)
    ensures
        forall|i: int| 0 <= i < scoring(cs).len() ==> score(#[trigger] scoring(cs)[i]) > 0,
    decreases cs.len(),
{
    if cs.len() > 0 {
        lemma_scoring_props(cs.drop_last());
        let r = scoring(cs.drop_last());
        assert forall|i: int| 0 <= i < scoring(cs).len() implies score(#[trigger] scoring(cs)[i]) > 0 by {
            if i < r.len() {
                assert(scoring(cs)[i] == r[i]);
            }
        }
    }
}

/// An authored candidate survives the score filter.
proof fn lemma_scoring_keeps(cs: Seq<CandidateView>, i: int)
    requires
        0 <= i < cs.len(),
        cs[i].authored_commit,
    ensures
        exists|j: int| 0 <= j < scoring(cs).len() && #[trigger] scoring(cs)[j].authored_commit,
    decreases cs.len(),
{
    if i == cs.len() - 1 {
        let j = scoring(cs).len() - 1;
        assert(scoring(cs)[j] == cs.last());
    } else {
        lemma_scoring_keeps(cs.drop_last(), i);
        let r = scoring(cs.drop_last());
        let j = choose|j: int| 0 <= j < r.len() && #[trigger] r[j].authored_commit;
        assert(scoring(cs)[j] == r[j]);
    }
}

proof fn lemma_not_cited_props(cs: Seq<CandidateView>)
    ensures
        forall|i: int| 0 <= i < not_cited(cs).len() ==> !cite_only(#[trigger] not_cited(cs)[i]),
        forall|i: int|
            0 <= i < not_cited(cs).len() ==> cs.contains(#[trigger] not_cited(cs)[i]),
    decreases cs.len(),
{
    if cs.len() > 0 {
        lemma_not_cited_props(cs.drop_last());
        let r = not_cited(cs.drop_last());
        assert forall|i: int| 0 <= i < not_cited(cs).len() implies !cite_only(#[trigger] not_cited(cs)[i])
            && cs.contains(not_cited(cs)[i]) by {
            if i < r.len() {
                assert(not_cited(cs)[i] == r[i]);
                let k = choose|k: int| 0 <= k < cs.drop_last().len() && cs.drop_last()[k] == r[i];
                assert(cs[k] == r[i]);
            } else {
                assert(cs[cs.len() - 1] == not_cited(cs)[i]);
            }
        }
    }
}

/// In a ranking, a candidate that authored the commit never comes after one
/// that did not, and a higher score never comes after a lower one.
pub proof fn law_ranking_order(cs: Seq<CandidateView>, out: Seq<CandidateView>)
    requires
        ranked(cs, out),
    ensures
        forall|k: int, l: int|
            0 <= k < l < out.len() ==> score(#[trigger] out[k]) >= score(#[trigger] out[l]),
        forall|k: int, l: int|
            0 <= k < l < out.len() && (#[trigger] out[l]).authored_commit ==> (#[trigger] out[k]).authored_commit,
{
    let p = choose|p: Seq<usize>| #[trigger] ranked_by(cs, out, p);
    assert forall|k: int, l: int| 0 <= k < l < out.len() implies score(#[trigger] out[k]) >= score(
        #[trigger] out[l],
    ) by {
        assert(out[k] == cs[p[k] as int]);
        assert(out[l] == cs[p[l] as int]);
    }
    assert forall|k: int, l: int|
        0 <= k < l < out.len() && (#[trigger] out[l]).authored_commit implies (#[trigger] out[k]).authored_commit by {
        assert(out[k] == cs[p[k] as int]);
        assert(out[l] == cs[p[l] as int]);
        if !out[k].authored_commit {
            law_authorship_dominates(out[l], out[k]);
        }
    }
}

/// Blame finds an author exactly when some candidate ran `git commit` for
/// the commit, or holds its subject inside a session window that covers the
/// commit time; a candidate with subject and window counts as an author just
/// as one that ran the commit does.
pub proof fn law_authoring_evidence(cs: Seq<CandidateView>)
    ensures
        authoring_evidence(cs) <==> exists|i: int|
            0 <= i < cs.len() && (#[trigger] cs[i].authored_commit || (cs[i].matched_subject
                && cs[i].window_covers_commit)),
        forall|i: int|
            0 <= i < cs.len() && #[trigger] cs[i].matched_subject && cs[i].window_covers_commit
                ==> authoring_evidence(cs),
        (forall|i: int| 0 <= i < cs.len() ==> !(#[trigger] cs[i]).authored_commit && !(cs[i].matched_subject
            && cs[i].window_covers_commit)) ==> !authoring_evidence(cs),
{
    if authoring_evidence(cs) {
        let i = choose|i: int| 0 <= i < cs.len() && authoring(#[trigger] cs[i]);
        assert(cs[i].authored_commit || (cs[i].matched_subject && cs[i].window_covers_commit));
    }
    assert forall|i: int|
        0 <= i < cs.len() && #[trigger] cs[i].matched_subject && cs[i].window_covers_commit
            implies authoring_evidence(cs) by {
        assert(authoring(cs[i]));
    }
    if exists|i: int|
        0 <= i < cs.len() && (#[trigger] cs[i].authored_commit || (cs[i].matched_subject
            && cs[i].window_covers_commit)) {
        let i = choose|i: int|
            0 <= i < cs.len() && (#[trigger] cs[i].authored_commit || (cs[i].matched_subject
                && cs[i].window_covers_commit));
        assert(authoring(cs[i]));
    }
}

} // verus!
