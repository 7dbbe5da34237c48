//! Public options struct and the hit representation.

use vstd::prelude::*;
use crate::transcript::{opt_str_view, Role};
use crate::turns::TurnSpec;

verus! {

broadcast use vstd::string::group_string_axioms;

pub struct Opts {
    pub pattern: String,
    pub here: bool,
    /// Restrict to this already-resolved project directory. Conflicts with `here`.
    pub project: Option<String>,
    pub case_sensitive: bool,
    /// Interpret `pattern` as a regex (grep -E flavor) instead of a literal.
    pub regex: bool,
    pub role: Option<Role>,
    pub include_sidechains: bool,
    /// Skip matches inside tool_result parts (bash output, file reads, etc.):
    /// a big noise reducer when searching for symbols that appear in dumps.
    pub no_tools: bool,
    /// Inclusive lower bound, normalized to `YYYY-MM-DDTHH:MM:SS`.
    pub after: Option<String>,
    /// Exclusive upper bound, normalized to `YYYY-MM-DDTHH:MM:SS`.
    pub before: Option<String>,
    /// Events of context to show before each match (grep -B).
    pub context_before: usize,
    /// Events of context to show after each match (grep -A).
    pub context_after: usize,
    /// Restrict matches to turns matching this spec (same numbering as `cch show`).
    /// Gates matches only: `-A`/`-B` context still spans outside the window.
    pub turns: Option<TurnSpec>,
    /// Emit one JSON object per match (JSONL). Context hits are dropped; color
    /// is forced off so output is deterministic when piped.
    pub json: bool,
    /// Print only the session id of each file with at least one match, one
    /// per line, like `grep -l`. Stops at the first hit of each session.
    pub files_with_matches: bool,
    /// Oldest sessions first instead of most-recent-first.
    pub reverse: bool,
    /// Summary mode: a one-line count/sessions/first-to-last recap instead of
    /// the per-session listing. Honors all other filters.
    pub stats: bool,
}

#[derive(Debug, Clone, Copy, PartialEq, Eq, Structural)]
pub enum HitKind {
    Match,
    Context,
}

#[derive(Debug)]
pub struct Hit {
    pub kind: HitKind,
    pub role: Role,
    pub is_tool: bool,
    pub timestamp: Option<String>,
    /// Turn number matching `cch show`'s default numbering, so that
    /// `cch show <id> --turns N` lands on this hit. `None` when the event is
    /// not part of the default view (e.g. an included sidechain).
    pub turn: Option<usize>,
    pub snippet: String,
}

/// A [`Hit`] with its strings as character sequences.
pub struct HitView {
    pub kind: HitKind,
    pub role: Role,
    pub is_tool: bool,
    pub timestamp: Option<Seq<char>>,
    pub turn: Option<nat>,
    pub snippet: Seq<char>,
}

pub open spec fn opt_nat(o: Option<usize>) -> Option<nat> {
    match o {
        Some(n) => Some(n as nat),
        None => None,
    }
}

impl View for Hit {
    type V = HitView;

    open spec fn view(&self) -> HitView {
        HitView {
            kind: self.kind,
            role: self.role,
            is_tool: self.is_tool,
            timestamp: opt_str_view(self.timestamp),
            turn: opt_nat(self.turn),
            snippet: self.snippet@,
        }
    }
}

/// The views of a list of hits.
pub open spec fn hits_view(v: Seq<Hit>) -> Seq<HitView> {
    v.map_values(|h: Hit| h@)
}

/// The hits of one transcript, with what names it.
pub struct SessionHits {
    /// The session id (the transcript's file stem).
    pub id: String,
    /// The project directory's name.
    pub project: String,
    pub first_prompt: Option<String>,
    pub hits: Vec<Hit>,
}

} // verus!
