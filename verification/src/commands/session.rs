//! `cch session`: list the sessions of a project, newest first.

use vstd::prelude::*;
use crate::session::SessionEntry;
use crate::text::{
    chars_of, collapse_ws, collapsed, contains, contains_str, decimal, ends_with, join_strings, joined,
    lines, occurs_at_exec, owned, push_char, push_decimal, push_str, split_lines, starts_with,
    string_of_range, trail_count, trim_end_char, padded,
};
use crate::transcript::{edited, events_view, Event, EventView};
use crate::timebounds::{in_range, in_window, opt_view, utc_text};

verus! {

broadcast use vstd::string::group_string_axioms;

pub const LIST_LIMIT: usize = 10;

pub const PREVIEW_WIDTH: usize = 80;

pub struct Opts {
    pub count: Option<usize>,
    pub include_empty: bool,
    /// Normalized `YYYY-MM-DDTHH:MM:SS` (inclusive).
    pub after: Option<String>,
    /// Normalized `YYYY-MM-DDTHH:MM:SS` (exclusive).
    pub before: Option<String>,
    /// Project directory to list (already resolved). `None` = current project.
    pub project: Option<String>,
    /// Filter to sessions that edited this path (file or directory).
    pub touched: Option<String>,
    /// Filter to sessions that produced this commit (reverse `cch blame`).
    /// Forces the listing into the commit's repository project directory.
    pub produced_commit: Option<String>,
    /// Clip each expanded prompt to this many lines (only meaningful with `-n`).
    pub head: Option<usize>,
}

// ---------------------------------------------------------------------------
// --touched
// ---------------------------------------------------------------------------

/// `s` without trailing slashes.
pub open spec fn without_trailing_slashes(s: Seq<char>) -> Seq<char> {
    s.take(s.len() - trail_count(s, '/'))
}

/// A path written by an edit tool matches the user's query: equal; or the
/// query (trailing slashes dropped) is a directory prefix of it, or a
/// directory segment anywhere in it; or it ends with the query at a path
/// boundary (`foo.rs` matches `/a/b/foo.rs`).
pub open spec fn path_match(edited: Seq<char>, query: Seq<char>) -> bool {
    let q = without_trailing_slashes(query);
    ||| edited == query
    ||| starts_with(edited, q + "/"@)
    ||| contains(edited, "/"@ + q + "/"@)
    ||| ends_with(
        edited,
        if starts_with(query, "/"@) {
            q
        } else {
            "/"@ + q
        },
    )
}

pub fn path_matches(edited: &str, query: &str) -> (r: bool)
    ensures
        r == path_match(edited@, query@),
{
    proof {
        reveal_strlit("/");
    }
    if crate::text::str_eq(edited, query) {
        return true;
    }
    let q = trim_end_char(query, '/');
    let ev = chars_of(edited);
    let mut dir = owned(q.as_str());
    push_str(&mut dir, "/");
    let dv = chars_of(dir.as_str());
    if occurs_at_exec(&ev, &dv, 0) {
        return true;
    }
    let mut mid = owned("/");
    push_str(&mut mid, q.as_str());
    push_str(&mut mid, "/");
    if contains_str(edited, mid.as_str()) {
        return true;
    }
    let qv = chars_of(query);
    let slash = chars_of("/");
    let tail = if occurs_at_exec(&qv, &slash, 0) {
        owned(q.as_str())
    } else {
        let mut t = owned("/");
        push_str(&mut t, q.as_str());
        t
    };
    let tv = chars_of(tail.as_str());
    if tv.len() > ev.len() {
        return false;
    }
    occurs_at_exec(&ev, &tv, ev.len() - tv.len())
}

/// Some edit tool call of the session wrote a path matching `query`.
pub open spec fn touched(evs: Seq<EventView>, query: Seq<char>) -> bool {
    exists|i: int, k: int|
        0 <= i < evs.len() && 0 <= k < edited(evs[i].parts).len() && path_match(
            #[trigger] edited(evs[i].parts)[k],
            query,
        )
}

pub fn session_touched(events: &Vec<Event>, query: &str) -> (r: bool)
    ensures
        r == touched(events_view(events@), query@),
{
    let ghost evs = events_view(events@);
    let mut i: usize = 0;
    while i < events.len()
        invariant
            evs == events_view(events@),
            i <= events@.len(),
            forall|a: int, k: int|
                0 <= a < i && 0 <= k < edited(evs[a].parts).len() ==> !path_match(
                    #[trigger] edited(evs[a].parts)[k],
                    query@,
                ),
        decreases events@.len() - i,
    {
        let paths = events[i].edited_paths();
        proof {
            assert(evs[i as int] == events@[i as int]@);
        }
        let ghost pv = paths@.map_values(|s: String| s@);
        let mut k: usize = 0;
        while k < paths.len()
            invariant
                evs == events_view(events@),
                i < events@.len(),
                pv == paths@.map_values(|s: String| s@),
                pv == edited(evs[i as int].parts),
                k <= paths@.len(),
                forall|m: int| 0 <= m < k ==> !path_match(#[trigger] pv[m], query@),
            decreases paths@.len() - k,
        {
            if path_matches(paths[k].as_str(), query) {
                proof {
                    assert(path_match(edited(evs[i as int].parts)[k as int], query@));
                }
                return true;
            }
            k = k + 1;
        }
        i = i + 1;
    }
    false
}

// ---------------------------------------------------------------------------
// Prompts
// ---------------------------------------------------------------------------

/// The first `limit` lines of `text` and how many were dropped; `text`
/// itself when it has no more lines than that.
pub open spec fn clipped(text: Seq<char>, limit: nat) -> (Seq<char>, nat) {
    let ls = lines(text);
    if ls.len() <= limit {
        (text, 0)
    } else {
        (joined(ls.take(limit as int), "\n"@), (ls.len() - limit) as nat)
    }
}

/// Keep the first `limit` lines of `text`. Returns the clipped string and the
/// number of lines that were dropped (0 if nothing was clipped).
pub fn clip_lines(text: &str, limit: usize) -> (r: (String, usize))
    ensures
        (r.0@, r.1 as nat) == clipped(text@, limit as nat),
{
    let ls = split_lines(text);
    let total = ls.len();
    if total <= limit {
        return (owned(text), 0);
    }
    let mut kept: Vec<String> = Vec::new();
    let mut i: usize = 0;
    while i < limit
        invariant
            i <= limit < ls@.len(),
            kept@.map_values(|x: String| x@) == ls@.map_values(|x: String| x@).take(i as int),
        decreases limit - i,
    {
        let ghost before = kept@;
        let line = owned(ls[i].as_str());
        kept.push(line);
        proof {
            assert(kept@ == before.push(line));
            assert(line@ == ls@.map_values(|x: String| x@)[i as int]);
            assert(kept@.map_values(|x: String| x@) =~= before.map_values(|x: String| x@).push(line@));
            assert(kept@.map_values(|x: String| x@) =~= ls@.map_values(|x: String| x@).take(i + 1));
        }
        i = i + 1;
    }
    (join_strings(&kept, "\n"), total - limit)
}

/// The words of `text` on one line, cut to `width` characters with an
/// ellipsis as the last one when longer.
pub open spec fn truncated(text: Seq<char>, width: nat) -> Seq<char> {
    let flat = collapsed(text);
    if flat.len() <= width {
        flat
    } else {
        flat.take(width - 1).push('…')
    }
}

/// A truncated preview never exceeds its width.
pub proof fn law_truncated_fits(text: Seq<char>, width: nat)
    requires
        width >= 1,
    ensures
        truncated(text, width).len() <= width,
{
}

pub fn truncate(text: &str, width: usize) -> (r: String)
    requires
        width >= 1 || collapsed(text@).len() == 0,
    ensures
        r@ == truncated(text@, width as nat),
{
    let flat = collapse_ws(text);
    let fv = chars_of(flat.as_str());
    if fv.len() <= width {
        flat
    } else {
        let mut out = string_of_range(&fv, 0, width - 1);
        push_char(&mut out, '…');
        assert(fv@.subrange(0, width - 1) =~= fv@.take(width - 1));
        out
    }
}

// ---------------------------------------------------------------------------
// Listings
// ---------------------------------------------------------------------------

/// The preview of a session in the one-line listing.
pub open spec fn preview_of(s: &SessionEntry) -> Seq<char> {
    match s.first_prompt {
        Some(p) => truncated(p@, PREVIEW_WIDTH as nat),
        None => "(no user prompt)"@,
    }
}

/// `-N  id  preview`, N left-aligned in two columns.
pub open spec fn list_line(n: nat, s: &SessionEntry) -> Seq<char> {
    "-"@ + padded(decimal(n), 2) + " "@ + s.stem@ + "  "@ + preview_of(s) + "\n"@
}

pub open spec fn list_lines(ss: Seq<SessionEntry>) -> Seq<char>
    decreases ss.len(),
{
    if ss.len() == 0 {
        Seq::empty()
    } else {
        list_lines(ss.drop_last()) + list_line(ss.len(), &ss.last())
    }
}

/// The default listing: the ten most recent sessions, then how many older
/// ones there are.
pub open spec fn list_text(ss: Seq<SessionEntry>) -> Seq<char> {
    let total = ss.len();
    let shown = if total < LIST_LIMIT { total } else { LIST_LIMIT as nat };
    list_lines(ss.take(shown as int)) + if total > shown {
        "… "@ + decimal((total - shown) as nat) + " older — `cch session -n "@ + decimal(total) + "` to see all\n"@
    } else {
        Seq::empty()
    }
}

fn push_list_line(out: &mut String, n: usize, s: &SessionEntry)
    requires
        n >= 1,
    ensures
        final(out)@ == old(out)@ + list_line(n as nat, s),
{
    let mut num = String::new();
    push_decimal(&mut num, n as u64);
    let cell = crate::commands::grep::render::pad(num.as_str(), 2);
    let preview = match &s.first_prompt {
        Some(p) => truncate(p.as_str(), PREVIEW_WIDTH),
        None => owned("(no user prompt)"),
    };
    push_str(out, "-");
    push_str(out, cell.as_str());
    push_str(out, " ");
    push_str(out, s.id());
    push_str(out, "  ");
    push_str(out, preview.as_str());
    push_str(out, "\n");
}

pub fn print_list(sessions: &Vec<SessionEntry>) -> (r: String)
    ensures
        r@ == list_text(sessions@),
{
    let total = sessions.len();
    let shown: usize = if total < LIST_LIMIT {
        total
    } else {
        LIST_LIMIT
    };
    let mut out = String::new();
    let mut i: usize = 0;
    while i < shown
        invariant
            shown <= sessions@.len(),
            i <= shown,
            out@ == list_lines(sessions@.take(i as int)),
        decreases shown - i,
    {
        proof {
            assert(sessions@.take(i + 1).drop_last() =~= sessions@.take(i as int));
        }
        push_list_line(&mut out, i + 1, &sessions[i]);
        i = i + 1;
    }
    if total > shown {
        push_str(&mut out, "… ");
        push_decimal(&mut out, (total - shown) as u64);
        push_str(&mut out, " older — `cch session -n ");
        push_decimal(&mut out, total as u64);
        push_str(&mut out, "` to see all\n");
    }
    assert(out@ =~= list_text(sessions@));
    out
}

/// The separator before every expanded session but the first.
pub open spec fn separator(i: nat) -> Seq<char> {
    if i > 0 {
        "\n"@ + Seq::new(72, |k: int| '-') + "\n"@ + "\n"@
    } else {
        Seq::empty()
    }
}

/// The first prompt of an expanded session, clipped to `head` lines when
/// asked, with a hint when lines were dropped.
pub open spec fn prompt_block(s: &SessionEntry, head: Option<usize>) -> Seq<char> {
    match s.first_prompt {
        Some(p) => "\n"@ + match head {
            Some(limit) => {
                let (clip, dropped) = clipped(p@, limit as nat);
                clip + "\n"@ + if dropped > 0 {
                    "… "@ + decimal(dropped) + " more line"@ + (if dropped == 1 { ""@ } else { "s"@ })
                        + " — `cch show "@ + s.stem@ + "` for the full prompt\n"@
                } else {
                    Seq::empty()
                }
            },
            None => p@ + "\n"@,
        },
        None => Seq::empty(),
    }
}

/// One expanded session: separator, `[-N] id`, first prompt.
pub open spec fn full_entry(i: nat, s: &SessionEntry, head: Option<usize>) -> Seq<char> {
    separator(i) + "[-"@ + decimal(i + 1) + "] "@ + s.stem@ + "\n"@ + prompt_block(s, head)
}

pub open spec fn full_entries(ss: Seq<SessionEntry>, head: Option<usize>) -> Seq<char>
    decreases ss.len(),
{
    if ss.len() == 0 {
        Seq::empty()
    } else {
        full_entries(ss.drop_last(), head) + full_entry((ss.len() - 1) as nat, &ss.last(), head)
    }
}

/// The expanded listing of the `n` most recent sessions.
pub open spec fn full_text(ss: Seq<SessionEntry>, n: nat, head: Option<usize>) -> Seq<char> {
    let take = if n < ss.len() { n } else { ss.len() };
    "Les "@ + decimal(take) + " sessions les plus récentes.\n"@ + "\n"@ + full_entries(ss.take(take as int), head)
}

fn push_separator(out: &mut String, i: usize)
    ensures
        final(out)@ == old(out)@ + separator(i as nat),
{
    if i > 0 {
        push_str(out, "\n");
        let mut i72: usize = 0;
        while i72 < 72
            invariant
                i72 <= 72,
                out@ == old(out)@ + "\n"@ + Seq::new(i72 as nat, |k: int| '-'),
            decreases 72 - i72,
        {
            push_char(out, '-');
            assert(Seq::new((i72 + 1) as nat, |k: int| '-') =~= Seq::new(i72 as nat, |k: int| '-').push('-'));
            i72 = i72 + 1;
        }
        push_str(out, "\n");
        push_str(out, "\n");
    } else {
        assert(out@ =~= old(out)@ + separator(i as nat));
    }
}

fn push_prompt_block(out: &mut String, s: &SessionEntry, head: Option<usize>)
    ensures
        final(out)@ == old(out)@ + prompt_block(s, head),
{
    if let Some(p) = &s.first_prompt {
        push_str(out, "\n");
        match head {
            Some(limit) => {
                let (clip, dropped) = clip_lines(p.as_str(), limit);
                push_str(out, clip.as_str());
                push_str(out, "\n");
                if dropped > 0 {
                    push_str(out, "… ");
                    push_decimal(out, dropped as u64);
                    push_str(out, " more line");
                    if dropped != 1 {
                        push_str(out, "s");
                    } else {
                        proof {
                            reveal_strlit("");
                        }
                        assert(out@ + ""@ =~= out@);
                    }
                    push_str(out, " — `cch show ");
                    push_str(out, s.id());
                    push_str(out, "` for the full prompt\n");
                }
            },
            None => {
                push_str(out, p.as_str());
                push_str(out, "\n");
            },
        }
    }
    assert(out@ =~= old(out)@ + prompt_block(s, head));
}

fn push_full_entry(out: &mut String, i: usize, s: &SessionEntry, head: Option<usize>)
    requires
        i < usize::MAX,
    ensures
        final(out)@ == old(out)@ + full_entry(i as nat, s, head),
{
    push_separator(out, i);
    push_str(out, "[-");
    push_decimal(out, (i + 1) as u64);
    push_str(out, "] ");
    push_str(out, s.id());
    push_str(out, "\n");
    push_prompt_block(out, s, head);
    assert(out@ =~= old(out)@ + full_entry(i as nat, s, head));
}

pub fn print_full(sessions: &Vec<SessionEntry>, n: usize, head: Option<usize>) -> (r: String)
    ensures
        r@ == full_text(sessions@, n as nat, head),
{
    let take: usize = if n < sessions.len() {
        n
    } else {
        sessions.len()
    };
    let mut out = owned("Les ");
    push_decimal(&mut out, take as u64);
    push_str(&mut out, " sessions les plus récentes.\n");
    push_str(&mut out, "\n");
    let ghost head_text = out@;
    let mut i: usize = 0;
    while i < take
        invariant
            take <= sessions@.len(),
            i <= take,
            out@ == head_text + full_entries(sessions@.take(i as int), head),
        decreases take - i,
    {
        proof {
            assert(sessions@.take(i + 1).drop_last() =~= sessions@.take(i as int));
        }
        push_full_entry(&mut out, i, &sessions[i], head);
        i = i + 1;
    }
    out
}

/// Whether `path` is one of `paths`.
pub fn path_listed(path: &str, paths: &Vec<String>) -> (r: bool)
    ensures
        r == exists|i: int| 0 <= i < paths@.len() && #[trigger] paths@[i]@ == path@,
{
    let mut i: usize = 0;
    while i < paths.len()
        invariant
            i <= paths@.len(),
            forall|k: int| 0 <= k < i ==> #[trigger] paths@[k]@ != path@,
        decreases paths@.len() - i,
    {
        if crate::text::str_eq(paths[i].as_str(), path) {
            return true;
        }
        i = i + 1;
    }
    false
}

/// The session's last activity (its modification time, formatted as UTC)
/// falls in the `--after`/`--before` window.
pub open spec fn active_in(s: &SessionEntry, after: Option<Seq<char>>, before: Option<Seq<char>>) -> bool {
    in_window(Some(utc_text((s.mtime_secs as i64) as int)), after, before)
}

/// The sessions active in the window, in order.
pub open spec fn active_sessions(ss: Seq<SessionEntry>, after: Option<Seq<char>>, before: Option<Seq<char>>) -> Seq<SessionEntry>
    decreases ss.len(),
{
    if ss.len() == 0 {
        Seq::empty()
    } else if active_in(&ss.last(), after, before) {
        active_sessions(ss.drop_last(), after, before).push(ss.last())
    } else {
        active_sessions(ss.drop_last(), after, before)
    }
}

pub fn retain_active(sessions: Vec<SessionEntry>, after: Option<&str>, before: Option<&str>) -> (r: Vec<SessionEntry>)
    ensures
        r@ == active_sessions(sessions@, opt_view(after), opt_view(before)),
{
    let ghost ss = sessions@;
    let mut out: Vec<SessionEntry> = Vec::new();
    let mut rest = sessions;
    // take the sessions from the back, then put them back in order
    let mut kept_rev: Vec<SessionEntry> = Vec::new();
    while rest.len() > 0
        invariant
            rest@ == ss.take(rest@.len() as int),
            rest@.len() <= ss.len(),
            active_sessions(ss, opt_view(after), opt_view(before)) == active_sessions(
                rest@,
                opt_view(after),
                opt_view(before),
            ) + kept_rev@.reverse(),
        decreases rest@.len(),
    {
        let ghost before_rest = rest@;
        let s = rest.pop().unwrap();
        proof {
            assert(before_rest.drop_last() =~= rest@);
            assert(rest@ =~= ss.take(rest@.len() as int));
        }
        let key = crate::timebounds::format_utc(s.mtime_secs as i64);
        if in_range(Some(key.as_str()), after, before) {
            let ghost kr = kept_rev@;
            kept_rev.push(s);
            proof {
                assert(kept_rev@.reverse() =~= seq![before_rest.last()] + kr.reverse());
            }
        }
    }
    while kept_rev.len() > 0
        invariant
            active_sessions(ss, opt_view(after), opt_view(before)) == out@ + kept_rev@.reverse(),
        decreases kept_rev@.len(),
    {
        let ghost kr = kept_rev@;
        let s = kept_rev.pop().unwrap();
        out.push(s);
        proof {
            assert(kr.reverse() =~= seq![kr.last()] + kept_rev@.reverse());
        }
    }
    assert(out@ =~= active_sessions(ss, opt_view(after), opt_view(before)));
    out
}

// ---------------------------------------------------------------------------
// Outcome of a listing
// ---------------------------------------------------------------------------

/// How the sessions are printed.
#[derive(Debug, PartialEq, Eq, Structural)]
pub enum ListMode {
    /// One line each ([`print_list`]).
    Lines,
    /// The `n` most recent in full ([`print_full`]).
    Full(usize),
}

/// Picks the listing from `-n` and `--head`; a zero for either is refused
/// with its message (`--head` is checked first).
pub fn list_mode(count: Option<usize>, head: Option<usize>) -> (r: Result<ListMode, &'static str>)
    ensures
        match r {
            Ok(ListMode::Lines) => head != Some(0usize) && count is None,
            Ok(ListMode::Full(n)) => head != Some(0usize) && count == Some(n) && n >= 1,
            Err(m) => if head == Some(0usize) {
                m@ == "--head must be >= 1"@
            } else {
                count == Some(0usize) && m@ == "Count must be >= 1"@
            },
        },
{
    if let Some(0) = head {
        return Err("--head must be >= 1");
    }
    match count {
        Some(n) => if n >= 1 {
            Ok(ListMode::Full(n))
        } else {
            Err("Count must be >= 1")
        },
        None => Ok(ListMode::Lines),
    }
}

/// Why nothing was listed, by the filter that emptied it: the commit, then
/// `--touched`, then the time window; `loc` is where the sessions were looked
/// for.
pub open spec fn empty_text(produced: Option<Seq<char>>, touched: Option<Seq<char>>, dated: bool, loc: Seq<char>) -> Seq<char> {
    match produced {
        Some(sha) => "No sessions produced commit "@ + sha + " in "@ + loc,
        None => match touched {
            Some(q) => "No sessions touched "@ + crate::text::debug_text(q) + " in "@ + loc,
            None => if dated {
                "No sessions in that window for "@ + loc
            } else {
                "No sessions found for "@ + loc
            },
        },
    }
}

pub fn empty_message(produced: Option<&str>, touched: Option<&str>, dated: bool, loc: &str) -> (r: String)
    ensures
        r@ == empty_text(opt_view(produced), opt_view(touched), dated, loc@),
{
    let mut out = match produced {
        Some(sha) => {
            let mut o = owned("No sessions produced commit ");
            push_str(&mut o, sha);
            push_str(&mut o, " in ");
            o
        },
        None => match touched {
            Some(q) => {
                let mut o = owned("No sessions touched ");
                let d = crate::text::debug_str(q);
                push_str(&mut o, d.as_str());
                push_str(&mut o, " in ");
                o
            },
            None => if dated {
                owned("No sessions in that window for ")
            } else {
                owned("No sessions found for ")
            },
        },
    };
    push_str(&mut out, loc);
    out
}

// ---------------------------------------------------------------------------
// Which sessions a project lists
// ---------------------------------------------------------------------------

/// The sessions a project lists, in order: those with a user prompt, and
/// with `--all` the others too.
pub open spec fn kept_entries(ss: Seq<SessionEntry>, include_empty: bool) -> Seq<SessionEntry>
    decreases ss.len(),
{
    if ss.len() == 0 {
        Seq::empty()
    } else if ss.last().first_prompt is Some || include_empty {
        kept_entries(ss.drop_last(), include_empty).push(ss.last())
    } else {
        kept_entries(ss.drop_last(), include_empty)
    }
}

/// Keeps the sessions a project lists (see [`kept_entries`]).
pub fn keep_entries(sessions: Vec<SessionEntry>, include_empty: bool) -> (r: Vec<SessionEntry>)
    ensures
        r@ == kept_entries(sessions@, include_empty),
{
    let ghost ss = sessions@;
    let mut rest = sessions;
    let mut kept_rev: Vec<SessionEntry> = Vec::new();
    while rest.len() > 0
        invariant
            rest@ == ss.take(rest@.len() as int),
            rest@.len() <= ss.len(),
            kept_entries(ss, include_empty) == kept_entries(rest@, include_empty) + kept_rev@.reverse(),
        decreases rest@.len(),
    {
        let ghost before = rest@;
        let s = rest.pop().unwrap();
        proof {
            assert(before.drop_last() =~= rest@);
            assert(rest@ =~= ss.take(rest@.len() as int));
        }
        if s.first_prompt.is_some() || include_empty {
            let ghost kr = kept_rev@;
            kept_rev.push(s);
            proof {
                assert(kept_rev@.reverse() =~= seq![before.last()] + kr.reverse());
                assert(kept_entries(before, include_empty) == kept_entries(rest@, include_empty).push(
                    before.last(),
                ));
                assert(kept_entries(rest@, include_empty).push(before.last()) + kr.reverse()
                    =~= kept_entries(rest@, include_empty) + kept_rev@.reverse());
            }
        } else {
            proof {
                assert(kept_entries(before, include_empty) == kept_entries(rest@, include_empty));
            }
        }
    }
    proof {
        assert(kept_entries(rest@, include_empty) =~= Seq::<SessionEntry>::empty());
    }
    let mut out: Vec<SessionEntry> = Vec::new();
    let ghost kr = kept_rev@;
    while kept_rev.len() > 0
        invariant
            out@ + kept_rev@.reverse() == kr.reverse(),
        decreases kept_rev@.len(),
    {
        let ghost before = kept_rev@;
        let s = kept_rev.pop().unwrap();
        let ghost o = out@;
        out.push(s);
        proof {
            assert(before.reverse() =~= seq![before.last()] + kept_rev@.reverse());
            assert(out@ + kept_rev@.reverse() =~= o + before.reverse());
        }
    }
    proof {
        assert(kept_rev@.reverse() =~= Seq::<SessionEntry>::empty());
        assert(out@ =~= kr.reverse());
    }
    out
}

/// The key a session's modification time is compared on: its UTC text, cut
/// to 19 characters.
pub open spec fn mtime_key(s: SessionEntry) -> Seq<char> {
    crate::timebounds::key19(utc_text((s.mtime_secs as i64) as int))
}

/// A session is active in the window exactly when its modification time is at
/// or after `--after` (inclusive lower bound) and before `--before`
/// (exclusive upper bound).
pub proof fn law_active_in_window(s: SessionEntry, after: Option<Seq<char>>, before: Option<Seq<char>>)
    ensures
        active_in(&s, after, before) <==> (after matches Some(a) ==> !crate::text::seq_lt(mtime_key(s), a)) && (
        before matches Some(b) ==> crate::text::seq_lt(mtime_key(s), b)),
{
}

/// The sessions kept are, in order, exactly those whose modification time is
/// at or after `--after` (inclusive lower bound) and before `--before`
/// (exclusive upper bound).
pub proof fn law_active_sessions_window(ss: Seq<SessionEntry>, after: Option<Seq<char>>, before: Option<Seq<char>>)
    ensures
        active_sessions(ss, after, before) == ss.filter(
            |s: SessionEntry|
                (after matches Some(a) ==> !crate::text::seq_lt(mtime_key(s), a)) && (before matches Some(b)
                    ==> crate::text::seq_lt(mtime_key(s), b)),
        ),
    decreases ss.len(),
{
    reveal_with_fuel(Seq::filter, 1);
    if ss.len() > 0 {
        law_active_sessions_window(ss.drop_last(), after, before);
        law_active_in_window(ss.last(), after, before);
    }
}

} // verus!
