//! `cch show <id>`: print a transcript's turns.

use vstd::prelude::*;
use crate::term::{paint, painted, BOLD, CYAN, DIM, GREEN, MAGENTA, YELLOW};
use crate::text::{chars_of, decimal, owned, push_decimal, push_str, replace_t, t_to_space, take_chars};
use crate::transcript::{
    events_view, tool_only, wrapper_user, Event, EventView, Part, PartView, Role,
};
use crate::turns::{turn_parse, TurnParse, TurnSpec, TurnSpecError};

verus! {

broadcast use vstd::string::group_string_axioms;

pub struct Opts {
    /// Session id or unique prefix.
    pub prefix: String,
    pub include_sidechains: bool,
    pub include_system: bool,
    /// Keep only turns with this displayed role (`user` excludes tool_result-only
    /// events, which render as `tool`). `None` = no filter.
    pub role: Option<Role>,
    pub turns: Option<String>,
}

/// An event `cch show` prints under `opts`.
pub open spec fn shown(e: EventView, o: &Opts) -> bool {
    &&& e.parts.len() > 0
    &&& !(e.is_sidechain && !o.include_sidechains)
    &&& !(e.role == Role::System && !o.include_system)
    &&& (o.role matches Some(r) ==> e.role == r && !tool_only(e))
    &&& !wrapper_user(e)
}

pub fn is_visible(ev: &Event, opts: &Opts) -> (r: bool)
    ensures
        r == shown(ev@, opts),
{
    if ev.parts.len() == 0 {
        return false;
    }
    if ev.is_sidechain && !opts.include_sidechains {
        return false;
    }
    if ev.role == Role::System && !opts.include_system {
        return false;
    }
    if let Some(r) = opts.role {
        // `--role user` excludes tool_result-only events (they render as
        // `tool`, not `user`). For `assistant` the tool-only check is a no-op.
        if ev.role != r || ev.is_tool_only() {
            return false;
        }
    }
    !is_wrapper_user_event(ev)
}

/// Hide pure-wrapper user events (e.g. `<system-reminder>`-only messages).
pub fn is_wrapper_user_event(ev: &Event) -> (r: bool)
    ensures
        r == wrapper_user(ev@),
{
    ev.is_wrapper_user()
}

/// `2026-04-23T09:15:30.000Z` becomes `2026-04-23 09:15:30`.
pub open spec fn short_ts(ts: Seq<char>) -> Seq<char> {
    let s = t_to_space(ts);
    s.take(if s.len() < 19 { s.len() as int } else { 19 })
}

pub fn fmt_ts(ts: &str) -> (r: String)
    ensures
        r@ == short_ts(ts@),
{
    let s = replace_t(ts);
    take_chars(s.as_str(), 19)
}

/// The label an event is shown under: `tool` for tool output only.
pub open spec fn event_label(e: EventView) -> Seq<char> {
    if tool_only(e) {
        "tool"@
    } else {
        e.role.name()
    }
}

/// The color of an event's header.
pub open spec fn event_color(e: EventView) -> Seq<char> {
    if tool_only(e) {
        YELLOW@
    } else {
        match e.role {
            Role::User => GREEN@,
            Role::Assistant => MAGENTA@,
            _ => DIM@,
        }
    }
}

/// The header line of turn `turn`: `── #N label ──`, with ` · time` when the
/// event has a timestamp.
pub open spec fn header_text(e: EventView, turn: nat) -> Seq<char> {
    let ts = match e.timestamp {
        Some(t) => short_ts(t),
        None => Seq::empty(),
    };
    if ts.len() == 0 {
        "── #"@ + decimal(turn) + " "@ + event_label(e) + " ──"@
    } else {
        "── #"@ + decimal(turn) + " "@ + event_label(e) + " · "@ + ts + " ──"@
    }
}

/// The line of one part.
pub open spec fn part_line(p: PartView, color: bool) -> Seq<char> {
    match p {
        PartView::Text(s) => s,
        PartView::ToolResult(s) => s,
        PartView::ToolUse { name, summary, .. } => painted(
            DIM@,
            if summary.len() == 0 {
                "[tool_use] "@ + name
            } else {
                "[tool_use] "@ + name + ": "@ + summary
            },
            color,
        ),
    }
}

/// The lines of some parts, each ended by a newline.
pub open spec fn parts_text(parts: Seq<PartView>, color: bool) -> Seq<char>
    decreases parts.len(),
{
    if parts.len() == 0 {
        Seq::empty()
    } else {
        parts_text(parts.drop_last(), color) + part_line(parts.last(), color) + "\n"@
    }
}

/// What `cch show` prints for one event, as turn `turn`.
pub open spec fn event_text(e: EventView, turn: nat, color: bool) -> Seq<char> {
    painted(event_color(e), header_text(e, turn), color) + "\n"@ + parts_text(e.parts, color)
}

pub fn print_event(out: &mut String, ev: &Event, turn: usize, color: bool)
    ensures
        final(out)@ == old(out)@ + event_text(ev@, turn as nat, color),
{
    let tool = ev.is_tool_only();
    let label: &str = if tool {
        "tool"
    } else {
        ev.role.label()
    };
    let code: &str = if tool {
        YELLOW
    } else {
        match ev.role {
            Role::User => GREEN,
            Role::Assistant => MAGENTA,
            _ => DIM,
        }
    };
    let ts = match &ev.timestamp {
        Some(t) => fmt_ts(t.as_str()),
        None => String::new(),
    };
    let mut header = owned("── #");
    push_decimal(&mut header, turn as u64);
    push_str(&mut header, " ");
    push_str(&mut header, label);
    if ts.as_str().is_empty() {
        push_str(&mut header, " ──");
    } else {
        push_str(&mut header, " · ");
        push_str(&mut header, ts.as_str());
        push_str(&mut header, " ──");
    }
    let painted_header = paint(code, header.as_str(), color);
    push_str(out, painted_header.as_str());
    push_str(out, "\n");
    let ghost start = out@;
    let ghost pv = ev@.parts;
    let mut i: usize = 0;
    while i < ev.parts.len()
        invariant
            pv == ev@.parts,
            i <= ev.parts@.len(),
            out@ == start + parts_text(pv.take(i as int), color),
        decreases ev.parts@.len() - i,
    {
        proof {
            assert(pv.take(i + 1).drop_last() =~= pv.take(i as int));
            assert(pv.take(i + 1).last() == ev.parts@[i as int]@);
        }
        match &ev.parts[i] {
            Part::Text(s) => push_str(out, s.as_str()),
            Part::ToolUse { name, summary, .. } => {
                let mut line = owned("[tool_use] ");
                push_str(&mut line, name.as_str());
                if !summary.as_str().is_empty() {
                    push_str(&mut line, ": ");
                    push_str(&mut line, summary.as_str());
                }
                let p = paint(DIM, line.as_str(), color);
                push_str(out, p.as_str());
            },
            Part::ToolResult(s) => push_str(out, s.as_str()),
        }
        push_str(out, "\n");
        i = i + 1;
    }
    proof {
        assert(pv.take(i as int) =~= pv);
        assert(out@ =~= old(out)@ + event_text(ev@, turn as nat, color));
    }
}

/// `── N turns ──`, or `── turns lo–hi of N ──` for a part of them.
pub open spec fn footer_text(lo: nat, hi: nat, total: nat, color: bool) -> Seq<char> {
    if total == 0 {
        painted(DIM@, "── 0 turns ──"@, color) + "\n"@
    } else {
        let txt = if lo == 1 && hi == total {
            "── "@ + decimal(total) + " turn"@ + (if total == 1 { ""@ } else { "s"@ }) + " ──"@
        } else {
            "── turns "@ + decimal(lo) + "–"@ + decimal(hi) + " of "@ + decimal(total) + " ──"@
        };
        "\n"@ + painted(DIM@, txt, color) + "\n"@
    }
}

pub fn print_footer(out: &mut String, lo: usize, hi: usize, total: usize, color: bool)
    ensures
        final(out)@ == old(out)@ + footer_text(lo as nat, hi as nat, total as nat, color),
{
    if total == 0 {
        let p = paint(DIM, "── 0 turns ──", color);
        push_str(out, p.as_str());
        push_str(out, "\n");
        return;
    }
    let mut txt = String::new();
    if lo == 1 && hi == total {
        push_str(&mut txt, "── ");
        push_decimal(&mut txt, total as u64);
        push_str(&mut txt, " turn");
        if total != 1 {
            push_str(&mut txt, "s");
        } else {
            proof {
                reveal_strlit("");
            }
            assert(txt@ + ""@ =~= txt@);
        }
        push_str(&mut txt, " ──");
    } else {
        push_str(&mut txt, "── turns ");
        push_decimal(&mut txt, lo as u64);
        push_str(&mut txt, "–");
        push_decimal(&mut txt, hi as u64);
        push_str(&mut txt, " of ");
        push_decimal(&mut txt, total as u64);
        push_str(&mut txt, " ──");
    }
    push_str(out, "\n");
    let p = paint(DIM, txt.as_str(), color);
    push_str(out, p.as_str());
    push_str(out, "\n");
    assert(out@ =~= old(out)@ + footer_text(lo as nat, hi as nat, total as nat, color));
}

/// Number of events `cch show` prints under `opts`, in the whole transcript.
pub open spec fn shown_count(evs: Seq<EventView>, o: &Opts) -> nat
    decreases evs.len(),
{
    if evs.len() == 0 {
        0
    } else {
        shown_count(evs.drop_last(), o) + if shown(evs.last(), o) {
            1nat
        } else {
            0nat
        }
    }
}

/// The printed events whose turn number lies in `lo..=hi`, separated by
/// blank lines.
pub open spec fn body_text(evs: Seq<EventView>, o: &Opts, lo: nat, hi: nat, color: bool) -> Seq<char>
    decreases evs.len(),
{
    if evs.len() == 0 {
        Seq::empty()
    } else {
        let b = body_text(evs.drop_last(), o, lo, hi, color);
        let n = shown_count(evs, o);
        if shown(evs.last(), o) && lo <= n && n <= hi {
            (if b.len() > 0 {
                b + "\n"@
            } else {
                b
            }) + event_text(evs.last(), n, color)
        } else {
            b
        }
    }
}

/// The selector `--turns` gives (`All` without it), if it parses.
pub open spec fn selector(o: &Opts) -> Option<TurnSpec> {
    match o.turns {
        None => Some(TurnSpec::All),
        Some(t) => match turn_parse(t@) {
            TurnParse::Spec(s) => Some(s),
            _ => None,
        },
    }
}

/// The window of turns to print: resolved against the number of printed
/// events when the selector needs it, open-ended otherwise.
pub open spec fn show_window(evs: Seq<EventView>, o: &Opts) -> Option<(nat, nat)> {
    match selector(o) {
        None => None,
        Some(s) => if s.needs_total_spec() {
            s.window(shown_count(evs, o))
        } else {
            Some((s.open_window().0 as nat, s.open_window().1 as nat))
        },
    }
}

/// What `cch show` prints: the id and project, the selected turns, and a
/// footer with the window and the total.
pub open spec fn show_output(
    id: Seq<char>,
    proj: Seq<char>,
    evs: Seq<EventView>,
    o: &Opts,
    lo: nat,
    hi: nat,
    color: bool,
) -> Seq<char> {
    let total = shown_count(evs, o);
    painted(BOLD@, id, color) + "  "@ + painted(CYAN@, proj, color) + "\n"@ + body_text(
        evs,
        o,
        lo,
        hi,
        color,
    ) + footer_text(lo, if hi < total { hi } else { total }, total, color)
}

proof fn lemma_event_text_nonempty(e: EventView, n: nat, color: bool)
    ensures
        event_text(e, n, color).len() > 0,
{
    reveal_strlit("\n");
    assert(event_text(e, n, color).len() >= "\n"@.len());
}

/// Renders a transcript for `cch show`. A `--turns` selector that does not
/// parse, or names a single turn beyond the end, is refused.
pub fn show_text(id: &str, proj: &str, events: &Vec<Event>, opts: &Opts, color: bool) -> (r: Result<
    String,
    TurnSpecError,
>)
    ensures
        match r {
            Ok(out) => show_window(events_view(events@), opts) matches Some((lo, hi)) && out@
                == show_output(id@, proj@, events_view(events@), opts, lo, hi, color),
            Err(e) => {
                &&& show_window(events_view(events@), opts) is None
                &&& match opts.turns {
                    Some(t) => match turn_parse(t@) {
                        TurnParse::Spec(TurnSpec::Single(n)) => e == TurnSpecError::OutOfRange(
                            n,
                            shown_count(events_view(events@), opts) as usize,
                        ),
                        TurnParse::Spec(_) => false,
                        p => crate::turns::parse_matches(Err(e), p),
                    },
                    None => false,
                }
            },
        },
{
    let ghost evs = events_view(events@);
    let spec = match &opts.turns {
        Some(t) => match TurnSpec::parse(t.as_str()) {
            Ok(s) => s,
            Err(e) => {
                return Err(e);
            },
        },
        None => TurnSpec::All,
    };
    assert(selector(opts) == Some(spec));
    let mut total_known: Option<usize> = None;
    let (lo, hi) = if spec.needs_total() {
        let total = count_shown(events, opts);
        let w = match spec.resolve(total) {
            Ok(w) => w,
            Err(e) => {
                return Err(e);
            },
        };
        total_known = Some(total);
        w
    } else {
        spec.resolve_open()
    };
    assert(show_window(evs, opts) == Some((lo as nat, hi as nat)));
    let mut out = String::new();
    let a = paint(BOLD, id, color);
    push_str(&mut out, a.as_str());
    push_str(&mut out, "  ");
    let b = paint(CYAN, proj, color);
    push_str(&mut out, b.as_str());
    push_str(&mut out, "\n");
    let ghost head = out@;
    let mut printed_any = false;
    let mut seen: usize = 0;
    let mut i: usize = 0;
    while i < events.len()
        invariant
            evs == events_view(events@),
            i <= events@.len(),
            seen == shown_count(evs.take(i as int), opts),
            seen <= i,
            out@ == head + body_text(evs.take(i as int), opts, lo as nat, hi as nat, color),
            printed_any == (body_text(evs.take(i as int), opts, lo as nat, hi as nat, color).len() > 0),
            total_known matches Some(t) ==> t == shown_count(evs, opts),
        decreases events@.len() - i,
    {
        let e = &events[i];
        proof {
            assert(evs.take(i + 1).drop_last() =~= evs.take(i as int));
            assert(evs.take(i + 1).last() == e@);
        }
        if is_visible(e, opts) {
            seen = seen + 1;
            if lo <= seen && seen <= hi {
                if printed_any {
                    push_str(&mut out, "\n");
                }
                print_event(&mut out, e, seen, color);
                printed_any = true;
                proof {
                    lemma_event_text_nonempty(e@, seen as nat, color);
                }
            }
        }
        i = i + 1;
    }
    proof {
        assert(evs.take(i as int) =~= evs);
    }
    let total = match total_known {
        Some(t) => t,
        None => seen,
    };
    let hi_display = if hi < total {
        hi
    } else {
        total
    };
    print_footer(&mut out, lo, hi_display, total, color);
    Ok(out)
}

/// Number of events printed under `opts`.
pub fn count_shown(events: &Vec<Event>, opts: &Opts) -> (n: usize)
    ensures
        n == shown_count(events_view(events@), opts),
{
    let ghost evs = events_view(events@);
    let mut n: usize = 0;
    let mut i: usize = 0;
    while i < events.len()
        invariant
            evs == events_view(events@),
            i <= events@.len(),
            n <= i,
            n == shown_count(evs.take(i as int), opts),
        decreases events@.len() - i,
    {
        proof {
            assert(evs.take(i + 1).drop_last() =~= evs.take(i as int));
            assert(evs.take(i + 1).last() == events@[i as int]@);
        }
        if is_visible(&events[i], opts) {
            n = n + 1;
        }
        i = i + 1;
    }
    assert(evs.take(i as int) =~= evs);
    n
}

} // verus!
