//! Scanning one transcript: turn numbering, context windows, role, turn and
//! tool filters.
//!
//! The scan is a state machine over the transcript's events ([`ScanState`],
//! [`step`]); [`scan_events`] runs it and is proved to return exactly the hits
//! of the final state.

use vstd::prelude::*;
use std::collections::VecDeque;
use crate::commands::grep::matcher::Matcher;
use crate::commands::grep::opts::{hits_view, opt_nat, Hit, HitKind, HitView, Opts};
use crate::commands::grep::snippet::{context_snippet, context_view, snippet, snippet_of, snippet_plain};
use crate::text::{chars_of, owned, push_str, trim, trim_range};
use crate::timebounds::{in_range, in_window};
use crate::transcript::{
    default_visible, events_view, opt_str_view, search_text, tool_only, Event, EventView, Part,
    PartView, Role,
};
use crate::turns::{TurnSpec, TurnSpecError};

verus! {

broadcast use vstd::string::group_string_axioms;

pub const MAX_MATCHES_PER_SESSION: usize = 5;

// ---------------------------------------------------------------------------
// Context rows
// ---------------------------------------------------------------------------

/// `[name]`, or `[name: summary]` when there is a summary.
pub open spec fn tool_tag(name: Seq<char>, summary: Seq<char>) -> Seq<char> {
    if summary.len() == 0 {
        "["@ + name + "]"@
    } else {
        "["@ + name + ": "@ + summary + "]"@
    }
}

/// The first non-blank text or tool output of an event, or the tag of its
/// first tool call, whichever comes first; empty when there is none.
pub open spec fn preview(parts: Seq<PartView>) -> Seq<char>
    decreases parts.len(),
{
    if parts.len() == 0 {
        Seq::empty()
    } else {
        match parts[0] {
            PartView::Text(s) => if trim(s).len() > 0 {
                s
            } else {
                preview(parts.drop_first())
            },
            PartView::ToolResult(s) => if trim(s).len() > 0 {
                s
            } else {
                preview(parts.drop_first())
            },
            PartView::ToolUse { name, summary, .. } => tool_tag(name, summary),
        }
    }
}

fn is_blank(s: &str) -> (r: bool)
    ensures
        r == (trim(s@).len() == 0),
{
    let v = chars_of(s);
    let (lo, hi) = trim_range(&v);
    lo == hi
}

pub fn event_preview(ev: &Event) -> (r: String)
    ensures
        r@ == preview(ev@.parts),
{
    let ghost parts = ev@.parts;
    let mut i: usize = 0;
    assert(parts.skip(0) =~= parts);
    while i < ev.parts.len()
        invariant
            i <= ev.parts@.len(),
            parts == ev@.parts,
            parts.len() == ev.parts@.len(),
            preview(parts) == preview(parts.skip(i as int)),
        decreases ev.parts@.len() - i,
    {
        proof {
            assert(parts.skip(i as int)[0] == parts[i as int]);
            assert(parts.skip(i as int).drop_first() =~= parts.skip(i + 1));
            assert(parts[i as int] == ev.parts@[i as int]@);
        }
        match &ev.parts[i] {
            Part::Text(s) => {
                if !is_blank(s.as_str()) {
                    return owned(s.as_str());
                }
            },
            Part::ToolResult(s) => {
                if !is_blank(s.as_str()) {
                    return owned(s.as_str());
                }
            },
            Part::ToolUse { name, summary, .. } => {
                let mut out = String::new();
                push_str(&mut out, "[");
                push_str(&mut out, name.as_str());
                if summary.as_str().is_empty() {
                    push_str(&mut out, "]");
                } else {
                    push_str(&mut out, ": ");
                    push_str(&mut out, summary.as_str());
                    push_str(&mut out, "]");
                }
                return out;
            },
        }
        i = i + 1;
    }
    proof {
        assert(parts.skip(i as int).len() == 0);
    }
    String::new()
}

fn clone_opt(o: &Option<String>) -> (r: Option<String>)
    ensures
        opt_str_view(r) == opt_str_view(*o),
{
    match o {
        Some(s) => Some(owned(s.as_str())),
        None => None,
    }
}

/// The context row an event yields.
pub open spec fn context_hit_view(ev: EventView, turn: Option<nat>) -> HitView {
    HitView {
        kind: HitKind::Context,
        role: ev.role,
        is_tool: tool_only(ev),
        timestamp: ev.timestamp,
        turn,
        snippet: context_view(preview(ev.parts)),
    }
}

pub fn context_hit(ev: &Event, turn: Option<usize>) -> (h: Hit)
    ensures
        h@ == context_hit_view(ev@, opt_nat(turn)),
{
    let preview_text = event_preview(ev);
    Hit {
        kind: HitKind::Context,
        role: ev.role,
        is_tool: ev.is_tool_only(),
        timestamp: clone_opt(&ev.timestamp),
        turn,
        snippet: context_snippet(preview_text.as_str()),
    }
}

// ---------------------------------------------------------------------------
// Match rows
// ---------------------------------------------------------------------------

/// The match row one part yields, if the pattern occurs in its searchable text.
pub open spec fn part_hit(
    ev: EventView,
    p: PartView,
    m: Matcher,
    turn: Option<nat>,
    plain: bool,
    color: bool,
) -> Option<HitView> {
    let text = search_text(p);
    if text.len() == 0 {
        None
    } else {
        match m.find_spec(text) {
            None => None,
            Some((pos, len)) => Some(
                HitView {
                    kind: HitKind::Match,
                    role: ev.role,
                    is_tool: p is ToolResult,
                    timestamp: ev.timestamp,
                    turn,
                    snippet: snippet_of(text, pos as int, len as int, color && !plain),
                },
            ),
        }
    }
}

/// The match rows of `parts`, one per matching part, appended after `have`
/// earlier rows: no more are taken once [`MAX_MATCHES_PER_SESSION`] is reached.
pub open spec fn event_hits(
    ev: EventView,
    parts: Seq<PartView>,
    m: Matcher,
    no_tools: bool,
    turn: Option<nat>,
    plain: bool,
    color: bool,
    have: nat,
) -> Seq<HitView>
    decreases parts.len(),
{
    if parts.len() == 0 {
        Seq::empty()
    } else {
        let p = parts[0];
        let h = if no_tools && p is ToolResult {
            None
        } else {
            part_hit(ev, p, m, turn, plain, color)
        };
        match h {
            None => event_hits(ev, parts.drop_first(), m, no_tools, turn, plain, color, have),
            Some(x) => if have + 1 >= MAX_MATCHES_PER_SESSION {
                seq![x]
            } else {
                seq![x] + event_hits(ev, parts.drop_first(), m, no_tools, turn, plain, color, have + 1)
            },
        }
    }
}

/// Appends to `hits` the match rows of `ev` (see [`event_hits`]).
pub fn extract_hits(
    ev: &Event,
    matcher: &Matcher,
    no_tools: bool,
    turn: Option<usize>,
    plain: bool,
    color: bool,
    hits: &mut Vec<Hit>,
)
    requires
        matcher.wf(),
    ensures
        hits_view(final(hits)@) == hits_view(old(hits)@) + event_hits(
            ev@,
            ev@.parts,
            *matcher,
            no_tools,
            opt_nat(turn),
            plain,
            color,
            old(hits)@.len(),
        ),
{
    let ghost parts = ev@.parts;
    let ghost target = hits_view(old(hits)@) + event_hits(
        ev@,
        parts,
        *matcher,
        no_tools,
        opt_nat(turn),
        plain,
        color,
        old(hits)@.len(),
    );
    let mut i: usize = 0;
    assert(parts.skip(0) =~= parts);
    while i < ev.parts.len()
        invariant
            i <= ev.parts@.len(),
            parts == ev@.parts,
            parts.len() == ev.parts@.len(),
            matcher.wf(),
            target == hits_view(old(hits)@) + event_hits(
                ev@,
                ev@.parts,
                *matcher,
                no_tools,
                opt_nat(turn),
                plain,
                color,
                old(hits)@.len(),
            ),
            target == hits_view(hits@) + event_hits(
                ev@,
                parts.skip(i as int),
                *matcher,
                no_tools,
                opt_nat(turn),
                plain,
                color,
                hits@.len(),
            ),
        decreases ev.parts@.len() - i,
    {
        let ghost rest = parts.skip(i as int);
        proof {
            assert(rest[0] == parts[i as int]);
            assert(rest.drop_first() =~= parts.skip(i + 1));
            assert(parts[i as int] == ev.parts@[i as int]@);
        }
        let part = &ev.parts[i];
        let is_tool = match part {
            Part::ToolResult(_) => true,
            _ => false,
        };
        if no_tools && is_tool {
            i = i + 1;
            continue;
        }
        let text = part.as_search_text();
        if text.is_empty() {
            i = i + 1;
            continue;
        }
        match matcher.find(text) {
            None => {
                i = i + 1;
            },
            Some((pos, len)) => {
                let snip = if plain {
                    snippet_plain(text, pos, len)
                } else {
                    snippet(text, pos, len, color)
                };
                let h = Hit {
                    kind: HitKind::Match,
                    role: ev.role,
                    is_tool,
                    timestamp: clone_opt(&ev.timestamp),
                    turn,
                    snippet: snip,
                };
                let ghost before = hits_view(hits@);
                hits.push(h);
                proof {
                    assert(hits_view(hits@) =~= before.push(h@));
                }
                if hits.len() >= MAX_MATCHES_PER_SESSION {
                    proof {
                        assert(target =~= hits_view(hits@));
                    }
                    return;
                }
                proof {
                    assert(target =~= hits_view(hits@) + event_hits(
                        ev@,
                        parts.skip(i + 1),
                        *matcher,
                        no_tools,
                        opt_nat(turn),
                        plain,
                        color,
                        hits@.len(),
                    ));
                }
                i = i + 1;
            },
        }
    }
    proof {
        assert(parts.skip(i as int).len() == 0);
        assert(target =~= hits_view(hits@));
    }
}

// ---------------------------------------------------------------------------
// Scanning a transcript
// ---------------------------------------------------------------------------

/// Where a scan stands after some events.
pub struct ScanState {
    /// The rows emitted so far.
    pub hits: Seq<HitView>,
    /// How many of them are matches.
    pub matches: nat,
    /// The last turn number given out (`cch show`'s default numbering).
    pub turn: nat,
    /// Candidate `-B` context rows, oldest first.
    pub ring: Seq<HitView>,
    /// `-A` context rows still owed to the last match.
    pub remaining: nat,
    /// The scan has stopped.
    pub done: bool,
}

pub open spec fn initial_state() -> ScanState {
    ScanState {
        hits: Seq::empty(),
        matches: 0,
        turn: 0,
        ring: Seq::empty(),
        remaining: 0,
        done: false,
    }
}

/// The gates every row passes, match or context: sidechains unless asked
/// for, the time window, no system events, and no tool-only events under
/// `--no-tools`.
pub open spec fn passes_gates(ev: EventView, o: &Opts) -> bool {
    &&& !(ev.is_sidechain && !o.include_sidechains)
    &&& in_window(ev.timestamp, opt_str_view(o.after), opt_str_view(o.before))
    &&& ev.role != Role::System
    &&& !(o.no_tools && tool_only(ev))
}

/// `--role` admits the event as a match; `--role user` means what the human
/// typed, so tool-output-only events are refused.
pub open spec fn role_allows(ev: EventView, o: &Opts) -> bool {
    match o.role {
        None => true,
        Some(r) => ev.role == r && !(r == Role::User && tool_only(ev)),
    }
}

/// `--turns` admits a match in this turn.
pub open spec fn turn_allows(turn: Option<nat>, window: Option<(nat, nat)>) -> bool {
    match window {
        None => true,
        Some((lo, hi)) => turn matches Some(t) && lo <= t <= hi,
    }
}

/// `ring` with `h` appended, keeping the newest `cap` rows.
pub open spec fn ring_push(ring: Seq<HitView>, h: HitView, cap: nat) -> Seq<HitView> {
    let r = ring.push(h);
    if r.len() > cap {
        r.skip(r.len() - cap)
    } else {
        r
    }
}

/// What one event does to the scan.
pub open spec fn step(
    st: ScanState,
    ev: EventView,
    o: &Opts,
    m: Matcher,
    window: Option<(nat, nat)>,
    color: bool,
) -> ScanState {
    if st.done {
        st
    } else {
        let visible = default_visible(ev);
        let turn = if visible {
            st.turn + 1
        } else {
            st.turn
        };
        if !passes_gates(ev, o) {
            ScanState { turn, ..st }
        } else {
            let ht = if visible {
                Some(turn)
            } else {
                None
            };
            let may_match = role_allows(ev, o) && turn_allows(ht, window) && st.matches
                < MAX_MATCHES_PER_SESSION;
            let skip_tools = o.no_tools || o.role == Some(Role::User);
            let eh = event_hits(ev, ev.parts, m, skip_tools, ht, o.json, color, 0);
            let matched = may_match && eh.len() > 0;
            let room = (MAX_MATCHES_PER_SESSION - st.matches) as nat;
            let taken: nat = if eh.len() <= room {
                eh.len()
            } else {
                room
            };
            let ctx = context_hit_view(ev, ht);
            let hits = if matched {
                st.hits + st.ring + eh.take(taken as int)
            } else if st.remaining > 0 {
                st.hits.push(ctx)
            } else {
                st.hits
            };
            let ring = if matched {
                Seq::empty()
            } else if st.remaining == 0 && o.context_before > 0 {
                ring_push(st.ring, ctx, o.context_before as nat)
            } else {
                st.ring
            };
            let remaining: nat = if matched {
                o.context_after as nat
            } else if st.remaining > 0 {
                (st.remaining - 1) as nat
            } else {
                0
            };
            let matches = if matched {
                st.matches + taken
            } else {
                st.matches
            };
            let done = (matches >= MAX_MATCHES_PER_SESSION && remaining == 0) || (o.files_with_matches
                && matches > 0) || (window matches Some((lo, hi)) && visible && turn > hi
                && remaining == 0);
            ScanState { hits, matches, turn, ring, remaining, done }
        }
    }
}

/// The scan state after the events `evs`.
pub open spec fn scan_run(
    evs: Seq<EventView>,
    o: &Opts,
    m: Matcher,
    window: Option<(nat, nat)>,
    color: bool,
) -> ScanState
    decreases evs.len(),
{
    if evs.len() == 0 {
        initial_state()
    } else {
        step(scan_run(evs.drop_last(), o, m, window, color), evs.last(), o, m, window, color)
    }
}

/// Number of events in `cch show`'s default numbering.
pub open spec fn visible_count(evs: Seq<EventView>) -> nat
    decreases evs.len(),
{
    if evs.len() == 0 {
        0
    } else {
        visible_count(evs.drop_last()) + if default_visible(evs.last()) {
            1nat
        } else {
            0nat
        }
    }
}

/// The `--turns` window of a scan: `Some(None)` without `--turns`, `None` when
/// the selector is refused (a single turn beyond the end).
pub open spec fn scan_window(o: &Opts, evs: Seq<EventView>) -> Option<Option<(nat, nat)>> {
    match o.turns {
        None => Some(None),
        Some(t) => match t.window(visible_count(evs)) {
            None => None,
            Some(w) => Some(Some(w)),
        },
    }
}

/// Once stopped, a scan stays stopped and later events change nothing.
proof fn lemma_scan_stays_done(
    evs: Seq<EventView>,
    o: &Opts,
    m: Matcher,
    window: Option<(nat, nat)>,
    color: bool,
    i: int,
    j: int,
)
    requires
        0 <= i <= j <= evs.len(),
        scan_run(evs.take(i), o, m, window, color).done,
    ensures
        scan_run(evs.take(j), o, m, window, color) == scan_run(evs.take(i), o, m, window, color),
    decreases j - i,
{
    if j > i {
        lemma_scan_stays_done(evs, o, m, window, color, i, j - 1);
        assert(evs.take(j).drop_last() =~= evs.take(j - 1));
    }
}

/// Number of events in the default numbering.
pub fn count_visible(events: &Vec<Event>) -> (n: usize)
    ensures
        n == visible_count(events_view(events@)),
{
    let ghost evs = events_view(events@);
    let mut n: usize = 0;
    let mut i: usize = 0;
    while i < events.len()
        invariant
            evs == events_view(events@),
            i <= events@.len(),
            n <= i,
            n == visible_count(evs.take(i as int)),
        decreases events@.len() - i,
    {
        proof {
            assert(evs.take(i + 1).drop_last() =~= evs.take(i as int));
        }
        if events[i].is_default_visible() {
            n = n + 1;
        }
        i = i + 1;
    }
    assert(evs.take(i as int) =~= evs);
    n
}

pub open spec fn window_view(w: Option<(usize, usize)>) -> Option<(nat, nat)> {
    match w {
        Some((a, b)) => Some((a as nat, b as nat)),
        None => None,
    }
}

/// Moves every row of `ring` to the end of `hits`, oldest first.
fn flush_ring(hits: &mut Vec<Hit>, ring: &mut VecDeque<Hit>)
    ensures
        hits_view(final(hits)@) == hits_view(old(hits)@) + hits_view(old(ring)@),
        final(ring)@.len() == 0,
{
    loop
        invariant
            hits_view(hits@) + hits_view(ring@) == hits_view(old(hits)@) + hits_view(old(ring)@),
        ensures
            hits_view(hits@) == hits_view(old(hits)@) + hits_view(old(ring)@),
            ring@.len() == 0,
        decreases ring@.len(),
    {
        let ghost hv = hits_view(hits@);
        let ghost rv = hits_view(ring@);
        match ring.pop_front() {
            Some(c) => {
                hits.push(c);
                proof {
                    assert(hits_view(hits@) =~= hv.push(rv[0]));
                    assert(hits_view(ring@) =~= rv.drop_first());
                    assert(hv.push(rv[0]) + rv.drop_first() =~= hv + rv);
                }
            },
            None => {
                proof {
                    assert(rv =~= Seq::<HitView>::empty());
                    assert(hv + rv =~= hv);
                }
                break;
            },
        }
    }
}

/// Moves rows from the front of `from` to the end of `hits` until `matches`
/// reaches [`MAX_MATCHES_PER_SESSION`] or `from` is empty; returns `matches`
/// plus the number moved.
fn take_matches(hits: &mut Vec<Hit>, from: Vec<Hit>, matches: usize) -> (n: usize)
    requires
        matches < MAX_MATCHES_PER_SESSION,
    ensures
        ({
            let room = (MAX_MATCHES_PER_SESSION - matches) as nat;
            let taken: nat = if from@.len() <= room {
                from@.len()
            } else {
                room
            };
            &&& n == matches + taken
            &&& hits_view(final(hits)@) == hits_view(old(hits)@) + hits_view(from@).take(taken as int)
        }),
{
    let ghost eh = hits_view(from@);
    let ghost base = hits_view(hits@);
    let mut rest = from;
    let mut n: usize = matches;
    let mut k: usize = 0;
    while n < MAX_MATCHES_PER_SESSION && rest.len() > 0
        invariant
            matches < MAX_MATCHES_PER_SESSION,
            n <= MAX_MATCHES_PER_SESSION,
            n == matches + k,
            k <= eh.len(),
            rest@.len() == eh.len() - k,
            hits_view(rest@) == eh.skip(k as int),
            hits_view(hits@) == base + eh.take(k as int),
        decreases rest@.len(),
    {
        let ghost rv = hits_view(rest@);
        let ghost hv = hits_view(hits@);
        let h = rest.remove(0);
        proof {
            assert(h@ == rv[0]);
            assert(rv[0] == eh[k as int]);
        }
        hits.push(h);
        proof {
            assert(hits_view(rest@) =~= rv.drop_first());
            assert(hits_view(rest@) =~= eh.skip(k + 1));
            assert(hits_view(hits@) =~= hv.push(h@));
            assert(hits_view(hits@) =~= base + eh.take(k + 1));
        }
        k = k + 1;
        n = n + 1;
    }
    n
}

/// Appends `h` to `ring` and drops the oldest rows beyond `cap`.
fn push_ring(ring: &mut VecDeque<Hit>, h: Hit, cap: usize)
    ensures
        hits_view(final(ring)@) == ring_push(hits_view(old(ring)@), h@, cap as nat),
{
    let ghost rv = hits_view(ring@);
    ring.push_back(h);
    let ghost full = hits_view(ring@);
    proof {
        assert(full =~= rv.push(h@));
        assert(full.skip(0) =~= full);
    }
    while ring.len() > cap
        invariant
            full == rv.push(h@),
            full.len() >= ring@.len(),
            full.len() > cap ==> ring@.len() >= cap,
            full.len() <= cap ==> ring@.len() == full.len(),
            hits_view(ring@) == full.skip(full.len() - ring@.len()),
        decreases ring@.len(),
    {
        let ghost before_pop = hits_view(ring@);
        ring.pop_front();
        proof {
            assert(hits_view(ring@) =~= before_pop.drop_first());
            assert(hits_view(ring@) =~= full.skip(full.len() - ring@.len()));
        }
    }
}

/// A scan in progress.
struct Scanner {
    hits: Vec<Hit>,
    matches: usize,
    turn: usize,
    ring: VecDeque<Hit>,
    remaining: usize,
}

impl Scanner {
    spec fn state(&self, done: bool) -> ScanState {
        ScanState {
            hits: hits_view(self.hits@),
            matches: self.matches as nat,
            turn: self.turn as nat,
            ring: hits_view(self.ring@),
            remaining: self.remaining as nat,
            done,
        }
    }

    /// Feeds one event to a running scan; returns whether it stopped.
    fn advance(
        &mut self,
        e: &Event,
        opts: &Opts,
        matcher: &Matcher,
        window: Option<(usize, usize)>,
        color: bool,
    ) -> (done: bool)
        requires
            matcher.wf(),
            old(self).turn < usize::MAX,
        ensures
            final(self).state(done) == step(
                old(self).state(false),
                e@,
                opts,
                *matcher,
                window_view(window),
                color,
            ),
            final(self).turn <= old(self).turn + 1,
    {
        let ghost st = self.state(false);
        let ghost ev = e@;
        let visible = e.is_default_visible();
        if visible {
            self.turn = self.turn + 1;
        }
        let ts: Option<&str> = match &e.timestamp {
            Some(t) => Some(t.as_str()),
            None => None,
        };
        let after: Option<&str> = match &opts.after {
            Some(t) => Some(t.as_str()),
            None => None,
        };
        let before: Option<&str> = match &opts.before {
            Some(t) => Some(t.as_str()),
            None => None,
        };
        let gated = !(e.is_sidechain && !opts.include_sidechains) && in_range(ts, after, before)
            && e.role != Role::System && !(opts.no_tools && e.is_tool_only());
        if !gated {
            return false;
        }
        let hit_turn: Option<usize> = if visible {
            Some(self.turn)
        } else {
            None
        };
        let role_ok = match opts.role {
            None => true,
            Some(r) => e.role == r && !(r == Role::User && e.is_tool_only()),
        };
        let turn_ok = match window {
            None => true,
            Some((lo, hi)) => match hit_turn {
                Some(t) => lo <= t && t <= hi,
                None => false,
            },
        };
        let skip_tools = opts.no_tools || match opts.role {
            Some(Role::User) => true,
            _ => false,
        };
        let ghost eh = event_hits(
            ev,
            ev.parts,
            *matcher,
            skip_tools,
            opt_nat(hit_turn),
            opts.json,
            color,
            0,
        );
        let mut matched = false;
        if role_ok && turn_ok && self.matches < MAX_MATCHES_PER_SESSION {
            let mut ev_hits: Vec<Hit> = Vec::new();
            extract_hits(e, matcher, skip_tools, hit_turn, opts.json, color, &mut ev_hits);
            assert(hits_view(ev_hits@) =~= eh);
            if ev_hits.len() > 0 {
                // Flush the -B buffer immediately before the match rows.
                flush_ring(&mut self.hits, &mut self.ring);
                self.matches = take_matches(&mut self.hits, ev_hits, self.matches);
                matched = true;
                proof {
                    assert(hits_view(self.ring@) =~= Seq::<HitView>::empty());
                }
            }
        }
        if matched {
            self.remaining = opts.context_after;
        } else if self.remaining > 0 {
            // Trailing context from a previous match.
            let ghost hv = hits_view(self.hits@);
            self.hits.push(context_hit(e, hit_turn));
            proof {
                assert(hits_view(self.hits@) =~= hv.push(context_hit_view(ev, opt_nat(hit_turn))));
            }
            self.remaining = self.remaining - 1;
        } else if opts.context_before > 0 {
            // Keep this event as a candidate for -B context of a future match.
            push_ring(&mut self.ring, context_hit(e, hit_turn), opts.context_before);
        }
        let stop_turns = match window {
            Some((_, hi)) => visible && self.turn > hi && self.remaining == 0,
            None => false,
        };
        (self.matches >= MAX_MATCHES_PER_SESSION && self.remaining == 0) || (opts.files_with_matches
            && self.matches > 0) || stop_turns
    }
}

/// The rows the scan of a transcript's events emits: matches, each preceded
/// by up to `-B` and followed by up to `-A` context rows, at most
/// [`MAX_MATCHES_PER_SESSION`] matches. `color` paints the matches (never in
/// JSON mode). A `--turns` selector naming a single turn beyond the end is
/// refused.
pub fn scan_events(events: &Vec<Event>, opts: &Opts, matcher: &Matcher, color: bool) -> (r: Result<
    Vec<Hit>,
    TurnSpecError,
>)
    requires
        matcher.wf(),
    ensures
        match r {
            Ok(hits) => scan_window(opts, events_view(events@)) matches Some(w) && hits_view(hits@)
                == scan_run(events_view(events@), opts, *matcher, w, color).hits,
            Err(e) => {
                &&& scan_window(opts, events_view(events@)) is None
                &&& opts.turns matches Some(TurnSpec::Single(n))
                &&& e == TurnSpecError::OutOfRange(n, visible_count(events_view(events@)) as usize)
            },
        },
{
    let ghost evs = events_view(events@);
    let total = count_visible(events);
    let window: Option<(usize, usize)> = match &opts.turns {
        Some(spec) => match spec.resolve(total) {
            Ok(w) => Some(w),
            Err(e) => {
                return Err(e);
            },
        },
        None => None,
    };
    let ghost w = window_view(window);
    assert(scan_window(opts, evs) == Some(w));
    let mut sc = Scanner {
        hits: Vec::new(),
        matches: 0,
        turn: 0,
        ring: VecDeque::new(),
        remaining: 0,
    };
    proof {
        assert(hits_view(sc.hits@) =~= Seq::<HitView>::empty());
        assert(hits_view(sc.ring@) =~= Seq::<HitView>::empty());
        assert(sc.state(false) =~= initial_state());
        assert(evs.take(0) =~= Seq::<EventView>::empty());
    }
    let mut i: usize = 0;
    while i < events.len()
        invariant
            evs == events_view(events@),
            w == window_view(window),
            scan_window(opts, evs) == Some(w),
            matcher.wf(),
            i <= events@.len(),
            sc.turn <= i,
            sc.state(false) == scan_run(evs.take(i as int), opts, *matcher, w, color),
        decreases events@.len() - i,
    {
        proof {
            assert(evs.take(i + 1).drop_last() =~= evs.take(i as int));
            assert(evs.take(i + 1).last() == evs[i as int]);
            assert(evs[i as int] == events@[i as int]@);
            assert(!scan_run(evs.take(i as int), opts, *matcher, w, color).done);
        }
        let done = sc.advance(&events[i], opts, matcher, window, color);
        i = i + 1;
        if done {
            proof {
                assert(sc.state(true) == scan_run(evs.take(i as int), opts, *matcher, w, color));
                lemma_scan_stays_done(evs, opts, *matcher, w, color, i as int, evs.len() as int);
                assert(evs.take(evs.len() as int) =~= evs);
            }
            return Ok(sc.hits);
        }
    }
    proof {
        assert(evs.take(i as int) =~= evs);
    }
    Ok(sc.hits)
}

// ---------------------------------------------------------------------------
// Laws of the scan
// ---------------------------------------------------------------------------

/// Number of match rows.
pub open spec fn match_count(hits: Seq<HitView>) -> nat
    decreases hits.len(),
{
    if hits.len() == 0 {
        0
    } else {
        match_count(hits.drop_last()) + if hits.last().kind == HitKind::Match {
            1nat
        } else {
            0nat
        }
    }
}

/// A match row obeys `--role` and `--turns`.
pub open spec fn row_obeys(h: HitView, o: &Opts, window: Option<(nat, nat)>) -> bool {
    h.kind == HitKind::Match ==> {
        &&& (o.role matches Some(r) ==> h.role == r)
        &&& (window matches Some((lo, hi)) ==> (h.turn matches Some(t) && lo <= t <= hi))
    }
}

proof fn lemma_match_count_concat(a: Seq<HitView>, b: Seq<HitView>)
    ensures
        match_count(a + b) == match_count(a) + match_count(b),
    decreases b.len(),
{
    if b.len() > 0 {
        assert((a + b).drop_last() =~= a + b.drop_last());
        lemma_match_count_concat(a, b.drop_last());
    } else {
        assert(a + b =~= a);
    }
}

proof fn lemma_match_count_all(a: Seq<HitView>, k: HitKind)
    requires
        forall|i: int| 0 <= i < a.len() ==> (#[trigger] a[i]).kind == k,
    ensures
        match_count(a) == if k == HitKind::Match { a.len() } else { 0 },
    decreases a.len(),
{
    if a.len() > 0 {
        lemma_match_count_all(a.drop_last(), k);
    }
}

/// The rows of an event are match rows of that event's role and turn.
proof fn lemma_event_hits_rows(
    ev: EventView,
    parts: Seq<PartView>,
    m: Matcher,
    no_tools: bool,
    turn: Option<nat>,
    plain: bool,
    color: bool,
    have: nat,
)
    ensures
        forall|i: int|
            0 <= i < event_hits(ev, parts, m, no_tools, turn, plain, color, have).len() ==> {
                let h = #[trigger] event_hits(ev, parts, m, no_tools, turn, plain, color, have)[i];
                h.kind == HitKind::Match && h.role == ev.role && h.turn == turn
            },
    decreases parts.len(),
{
    if parts.len() > 0 {
        lemma_event_hits_rows(ev, parts.drop_first(), m, no_tools, turn, plain, color, have);
        lemma_event_hits_rows(ev, parts.drop_first(), m, no_tools, turn, plain, color, have + 1);
    }
}

/// What holds of every scan state: the match counter counts the match rows
/// and never passes the cap, the `-B` buffer holds context rows only, and
/// every match row obeys `--role` and `--turns`.
pub open spec fn scan_wf(st: ScanState, o: &Opts, window: Option<(nat, nat)>) -> bool {
    &&& match_count(st.hits) == st.matches
    &&& st.matches <= MAX_MATCHES_PER_SESSION
    &&& forall|i: int| 0 <= i < st.ring.len() ==> (#[trigger] st.ring[i]).kind == HitKind::Context
    &&& forall|i: int| 0 <= i < st.hits.len() ==> row_obeys(#[trigger] st.hits[i], o, window)
}

proof fn lemma_step_wf(
    st: ScanState,
    ev: EventView,
    o: &Opts,
    m: Matcher,
    window: Option<(nat, nat)>,
    color: bool,
)
    requires
        scan_wf(st, o, window),
    ensures
        scan_wf(step(st, ev, o, m, window, color), o, window),
{
    let nx = step(st, ev, o, m, window, color);
    if !st.done && passes_gates(ev, o) {
        let visible = default_visible(ev);
        let turn = if visible { st.turn + 1 } else { st.turn };
        let ht = if visible { Some(turn) } else { None };
        let skip_tools = o.no_tools || o.role == Some(Role::User);
        let eh = event_hits(ev, ev.parts, m, skip_tools, ht, o.json, color, 0);
        let may_match = role_allows(ev, o) && turn_allows(ht, window) && st.matches < MAX_MATCHES_PER_SESSION;
        let matched = may_match && eh.len() > 0;
        let room = (MAX_MATCHES_PER_SESSION - st.matches) as nat;
        let taken: nat = if eh.len() <= room { eh.len() } else { room };
        let ctx = context_hit_view(ev, ht);
        lemma_event_hits_rows(ev, ev.parts, m, skip_tools, ht, o.json, color, 0);
        if matched {
            let added = st.ring + eh.take(taken as int);
            lemma_match_count_all(st.ring, HitKind::Context);
            assert forall|i: int| 0 <= i < eh.take(taken as int).len() implies (#[trigger] eh.take(taken as int)[i]).kind
                == HitKind::Match by {
                assert(eh.take(taken as int)[i] == eh[i]);
            }
            lemma_match_count_all(eh.take(taken as int), HitKind::Match);
            lemma_match_count_concat(st.ring, eh.take(taken as int));
            lemma_match_count_concat(st.hits, added);
            assert(st.hits + st.ring + eh.take(taken as int) =~= st.hits + added);
            assert(nx.hits == st.hits + added);
            assert(match_count(nx.hits) == nx.matches);
            assert forall|i: int| 0 <= i < nx.hits.len() implies row_obeys(#[trigger] nx.hits[i], o, window) by {
                if i < st.hits.len() {
                    assert(nx.hits[i] == st.hits[i]);
                } else if i < st.hits.len() + st.ring.len() {
                    assert(nx.hits[i] == st.ring[i - st.hits.len()]);
                } else {
                    let j = i - st.hits.len() - st.ring.len();
                    assert(nx.hits[i] == eh[j]);
                }
            }
        } else if st.remaining > 0 {
            lemma_match_count_concat(st.hits, seq![ctx]);
            assert(st.hits.push(ctx) =~= st.hits + seq![ctx]);
            lemma_match_count_all(seq![ctx], HitKind::Context);
            assert(match_count(nx.hits) == nx.matches);
            assert forall|i: int| 0 <= i < nx.hits.len() implies row_obeys(#[trigger] nx.hits[i], o, window) by {
                if i < st.hits.len() {
                    assert(nx.hits[i] == st.hits[i]);
                }
            }
        } else if o.context_before > 0 {
            let r = st.ring.push(ctx);
            assert forall|i: int| 0 <= i < nx.ring.len() implies (#[trigger] nx.ring[i]).kind == HitKind::Context by {
                if r.len() > o.context_before {
                    assert(nx.ring[i] == r[i + (r.len() - o.context_before)]);
                } else {
                    assert(nx.ring[i] == r[i]);
                }
            }
        }
    }
}

/// Every scan state after any events is well formed (see [`scan_wf`]).
proof fn lemma_scan_wf(evs: Seq<EventView>, o: &Opts, m: Matcher, window: Option<(nat, nat)>, color: bool)
    ensures
        scan_wf(scan_run(evs, o, m, window, color), o, window),
    decreases evs.len(),
{
    if evs.len() > 0 {
        lemma_scan_wf(evs.drop_last(), o, m, window, color);
        lemma_step_wf(scan_run(evs.drop_last(), o, m, window, color), evs.last(), o, m, window, color);
    } else {
        assert(match_count(Seq::<HitView>::empty()) == 0);
    }
}

/// A session yields at most [`MAX_MATCHES_PER_SESSION`] match rows, and every
/// match row is of the `--role` asked for and lies in the `--turns` window
/// (context rows may lie outside both).
pub proof fn law_scan_caps_and_filters(
    evs: Seq<EventView>,
    o: &Opts,
    m: Matcher,
    window: Option<(nat, nat)>,
    color: bool,
)
    ensures
        match_count(scan_run(evs, o, m, window, color).hits) <= MAX_MATCHES_PER_SESSION,
        forall|i: int|
            0 <= i < scan_run(evs, o, m, window, color).hits.len() ==> row_obeys(
                #[trigger] scan_run(evs, o, m, window, color).hits[i],
                o,
                window,
            ),
{
    lemma_scan_wf(evs, o, m, window, color);
}

/// Until the scan stops, its turn counter is the number of events in
/// `cch show`'s default numbering: a match in turn N is `cch show --turns N`.
pub proof fn law_scan_numbering(evs: Seq<EventView>, o: &Opts, m: Matcher, window: Option<(nat, nat)>, color: bool)
    requires
        !scan_run(evs, o, m, window, color).done,
    ensures
        scan_run(evs, o, m, window, color).turn == visible_count(evs),
    decreases evs.len(),
{
    if evs.len() > 0 {
        let prev = scan_run(evs.drop_last(), o, m, window, color);
        if prev.done {
            assert(step(prev, evs.last(), o, m, window, color) == prev);
        } else {
            law_scan_numbering(evs.drop_last(), o, m, window, color);
        }
    }
}

/// Under `cch show`'s defaults (no sidechains, no system events, any role),
/// an event is printed exactly when the grep scan gives it a turn number, so
/// both count the same turns.
pub proof fn law_numbering_matches_show(evs: Seq<EventView>, o: &crate::commands::show::Opts)
    requires
        !o.include_sidechains,
        !o.include_system,
        o.role is None,
    ensures
        forall|i: int|
            0 <= i < evs.len() ==> (crate::commands::show::shown(#[trigger] evs[i], o)
                <==> default_visible(evs[i])),
        crate::commands::show::shown_count(evs, o) == visible_count(evs),
    decreases evs.len(),
{
    if evs.len() > 0 {
        law_numbering_matches_show(evs.drop_last(), o);
        assert forall|i: int| 0 <= i < evs.len() implies (crate::commands::show::shown(
            #[trigger] evs[i],
            o,
        ) <==> default_visible(evs[i])) by {
            if i < evs.len() - 1 {
                assert(evs[i] == evs.drop_last()[i]);
            }
        }
    }
}

/// Sidechain events are skipped unless asked for: without `--sidechains`
/// such an event leaves the scan exactly as it was (no row, no turn).
pub proof fn law_sidechains_skipped(
    st: ScanState,
    ev: EventView,
    o: &Opts,
    m: Matcher,
    window: Option<(nat, nat)>,
    color: bool,
)
    requires
        ev.is_sidechain,
        !o.include_sidechains,
    ensures
        step(st, ev, o, m, window, color) == st,
{
}

} // verus!
