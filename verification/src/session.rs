//! Sessions: their first prompt, and finding one by id prefix.

use vstd::prelude::*;
use crate::text::{chars_of, owned, push_str, starts_with, str_eq, string_of_range, trail_ws, trim, trim_range};
use crate::transcript::{events_view, Event, EventView, Part, PartView, Role};

verus! {

broadcast use vstd::string::group_string_axioms;

/// One transcript of a project, as listed by `cch session`.
#[derive(Debug)]
pub struct SessionEntry {
    /// The transcript's path.
    pub path: String,
    /// The transcript's file stem: the session id.
    pub stem: String,
    /// Modification time, whole seconds since the Unix epoch (0 before it).
    pub mtime_secs: u64,
    pub first_prompt: Option<String>,
}

impl SessionEntry {
    pub fn id(&self) -> (r: &str)
        ensures
            r@ == self.stem@,
    {
        self.stem.as_str()
    }
}

// ---------------------------------------------------------------------------
// First prompt
// ---------------------------------------------------------------------------

/// A text a person typed: not blank, and not a `<...>` wrapper.
pub open spec fn is_prompt_text(s: Seq<char>) -> bool {
    trim(s).len() > 0 && trim(s)[0] != '<'
}

/// The first typed text among `parts`, trimmed.
pub open spec fn prompt_in(parts: Seq<PartView>) -> Option<Seq<char>>
    decreases parts.len(),
{
    if parts.len() == 0 {
        None
    } else {
        match parts[0] {
            PartView::Text(s) => if is_prompt_text(s) {
                Some(trim(s))
            } else {
                prompt_in(parts.drop_first())
            },
            _ => prompt_in(parts.drop_first()),
        }
    }
}

/// The first real prompt of a transcript: the first typed text of a user
/// event outside sidechains, trimmed.
pub open spec fn first_prompt(evs: Seq<EventView>) -> Option<Seq<char>>
    decreases evs.len(),
{
    if evs.len() == 0 {
        None
    } else {
        let e = evs[0];
        if e.role == Role::User && !e.is_sidechain && prompt_in(e.parts) is Some {
            prompt_in(e.parts)
        } else {
            first_prompt(evs.drop_first())
        }
    }
}

fn prompt_of_parts(parts: &Vec<Part>) -> (r: Option<String>)
    ensures
        match r {
            Some(s) => prompt_in(parts@.map_values(|p: Part| p@)) == Some(s@),
            None => prompt_in(parts@.map_values(|p: Part| p@)) is None,
        },
{
    let ghost pv = parts@.map_values(|p: Part| p@);
    let mut i: usize = 0;
    assert(pv.skip(0) =~= pv);
    while i < parts.len()
        invariant
            pv == parts@.map_values(|p: Part| p@),
            i <= parts@.len(),
            prompt_in(pv) == prompt_in(pv.skip(i as int)),
        decreases parts@.len() - i,
    {
        proof {
            assert(pv.skip(i as int)[0] == parts@[i as int]@);
            assert(pv.skip(i as int).drop_first() =~= pv.skip(i + 1));
        }
        if let Part::Text(s) = &parts[i] {
            let v = chars_of(s.as_str());
            let (lo, hi) = trim_range(&v);
            if lo < hi && v[lo] != '<' {
                proof {
                    assert(trim(s@)[0] == v@[lo as int]);
                }
                return Some(string_of_range(&v, lo, hi));
            }
            proof {
                assert(trim(s@).len() == hi - lo);
                if lo < hi {
                    assert(trim(s@)[0] == v@[lo as int]);
                }
            }
        }
        i = i + 1;
    }
    proof {
        assert(pv.skip(i as int).len() == 0);
    }
    None
}

/// First real external user prompt as plain text. Skips sidechains, tool
/// results, and `<system-reminder>`-style wrappers.
pub fn first_user_prompt(events: &Vec<Event>) -> (r: Option<String>)
    ensures
        match r {
            Some(s) => first_prompt(events_view(events@)) == Some(s@),
            None => first_prompt(events_view(events@)) is None,
        },
{
    let ghost evs = events_view(events@);
    let mut i: usize = 0;
    assert(evs.skip(0) =~= evs);
    while i < events.len()
        invariant
            evs == events_view(events@),
            i <= events@.len(),
            first_prompt(evs) == first_prompt(evs.skip(i as int)),
        decreases events@.len() - i,
    {
        let e = &events[i];
        proof {
            assert(evs.skip(i as int)[0] == e@);
            assert(evs.skip(i as int).drop_first() =~= evs.skip(i + 1));
        }
        if e.role == Role::User && !e.is_sidechain {
            if let Some(p) = prompt_of_parts(&e.parts) {
                return Some(p);
            }
        }
        i = i + 1;
    }
    proof {
        assert(evs.skip(i as int).len() == 0);
    }
    None
}

// ---------------------------------------------------------------------------
// Resolving a prefix
// ---------------------------------------------------------------------------

/// A transcript on disk: its path, session id (file stem) and project name.
pub struct TranscriptFile {
    pub path: String,
    pub id: String,
    pub project: String,
}

/// Why a prefix names no single session.
#[derive(Debug)]
pub enum ResolveError {
    Empty,
    NotFound(String),
    /// The prefix, and the id and project of every match.
    Ambiguous(String, Vec<(String, String)>),
}

/// The transcripts whose id starts with `prefix`, in order.
pub open spec fn prefix_matches(all: Seq<TranscriptFile>, prefix: Seq<char>) -> Seq<TranscriptFile>
    decreases all.len(),
{
    if all.len() == 0 {
        Seq::empty()
    } else {
        let r = prefix_matches(all.drop_last(), prefix);
        if starts_with(all.last().id@, prefix) {
            r.push(all.last())
        } else {
            r
        }
    }
}

/// Index of the first transcript of `ms` whose id is `prefix` itself.
pub open spec fn first_exact(ms: Seq<TranscriptFile>, prefix: Seq<char>) -> Option<int> {
    if exists|i: int| 0 <= i < ms.len() && #[trigger] ms[i].id@ == prefix {
        Some(
            choose|i: int|
                0 <= i < ms.len() && ms[i].id@ == prefix && forall|j: int|
                    0 <= j < i ==> #[trigger] ms[j].id@ != prefix,
        )
    } else {
        None
    }
}

/// Where `prefix` leads: the first transcript whose id is `prefix` itself,
/// else the only one whose id starts with it; `None` when there is no such
/// transcript or several.
pub open spec fn resolved(all: Seq<TranscriptFile>, prefix: Seq<char>) -> Option<TranscriptFile> {
    let ms = prefix_matches(all, prefix);
    match first_exact(ms, prefix) {
        Some(i) => Some(ms[i]),
        None => if ms.len() == 1 {
            Some(ms[0])
        } else {
            None
        },
    }
}

/// The id and project of each transcript.
pub open spec fn id_project_pairs(ms: Seq<TranscriptFile>) -> Seq<(Seq<char>, Seq<char>)> {
    ms.map_values(|t: TranscriptFile| (t.id@, t.project@))
}

pub open spec fn pair_views(v: Seq<(String, String)>) -> Seq<(Seq<char>, Seq<char>)> {
    v.map_values(|p: (String, String)| (p.0@, p.1@))
}

/// Resolve a session by unique prefix across all projects (git-style): a
/// transcript whose id is the prefix itself wins; otherwise exactly one id
/// must start with it.
pub fn resolve_prefix(prefix: &str, all: &Vec<TranscriptFile>) -> (r: Result<String, ResolveError>)
    ensures
        prefix@.len() == 0 ==> r matches Err(ResolveError::Empty),
        prefix@.len() > 0 ==> match r {
            Ok(p) => resolved(all@, prefix@) matches Some(t) && p@ == t.path@,
            Err(ResolveError::NotFound(q)) => prefix_matches(all@, prefix@).len() == 0 && q@ == prefix@,
            Err(ResolveError::Ambiguous(q, list)) => {
                &&& resolved(all@, prefix@) is None
                &&& prefix_matches(all@, prefix@).len() > 1
                &&& q@ == prefix@
                &&& pair_views(list@) == id_project_pairs(prefix_matches(all@, prefix@))
            },
            Err(ResolveError::Empty) => false,
        },
{
    let pv = chars_of(prefix);
    if pv.len() == 0 {
        return Err(ResolveError::Empty);
    }
    let ghost p = prefix@;
    // indices of the matching transcripts, in order
    let mut idx: Vec<usize> = Vec::new();
    let mut i: usize = 0;
    while i < all.len()
        invariant
            p == prefix@,
            p == pv@,
            i <= all@.len(),
            forall|k: int| 0 <= k < idx@.len() ==> #[trigger] idx@[k] < all@.len(),
            idx@.map_values(|k: usize| all@[k as int]) == prefix_matches(all@.take(i as int), p),
        decreases all@.len() - i,
    {
        proof {
            assert(all@.take(i + 1).drop_last() =~= all@.take(i as int));
            assert(all@.take(i + 1).last() == all@[i as int]);
        }
        let id = chars_of(all[i].id.as_str());
        let ghost before = idx@;
        let hit = crate::text::occurs_at_exec(&id, &pv, 0);
        assert(hit == starts_with(all@[i as int].id@, p));
        if hit {
            idx.push(i);
            assert(idx@.map_values(|k: usize| all@[k as int]) =~= before.map_values(
                |k: usize| all@[k as int],
            ).push(all@[i as int]));
        }
        assert(idx@.map_values(|k: usize| all@[k as int]) == prefix_matches(all@.take(i + 1), p));
        i = i + 1;
    }
    assert(all@.take(i as int) =~= all@);
    let ghost ms = prefix_matches(all@, p);
    assert(idx@.map_values(|k: usize| all@[k as int]) == ms);
    // an exact match wins
    let mut j: usize = 0;
    while j < idx.len()
        invariant
            p == prefix@,
            p.len() > 0,
            j <= idx@.len(),
            ms == prefix_matches(all@, p),
            ms.len() == idx@.len(),
            forall|k: int| 0 <= k < idx@.len() ==> #[trigger] idx@[k] < all@.len(),
            idx@.map_values(|k: usize| all@[k as int]) == ms,
            forall|k: int| 0 <= k < j ==> #[trigger] ms[k].id@ != p,
        decreases idx@.len() - j,
    {
        let t = &all[idx[j]];
        proof {
            assert(ms[j as int] == all@[idx@[j as int] as int]);
        }
        if str_eq(t.id.as_str(), prefix) {
            proof {
                let c = choose|c: int|
                    0 <= c < ms.len() && ms[c].id@ == p && forall|k: int|
                        0 <= k < c ==> #[trigger] ms[k].id@ != p;
                assert(0 <= j < ms.len() && ms[j as int].id@ == p);
                if c < j {
                    assert(ms[c].id@ != p);
                } else if c > j {
                    assert(ms[j as int].id@ != p);
                }
            }
            return Ok(owned(t.path.as_str()));
        }
        j = j + 1;
    }
    if idx.len() == 0 {
        return Err(ResolveError::NotFound(owned(prefix)));
    }
    if idx.len() == 1 {
        proof {
            assert(ms[0] == all@[idx@[0] as int]);
        }
        return Ok(owned(all[idx[0]].path.as_str()));
    }
    let mut list: Vec<(String, String)> = Vec::new();
    let mut k: usize = 0;
    while k < idx.len()
        invariant
            k <= idx@.len(),
            ms.len() == idx@.len(),
            forall|m: int| 0 <= m < idx@.len() ==> #[trigger] idx@[m] < all@.len(),
            idx@.map_values(|m: usize| all@[m as int]) == ms,
            pair_views(list@) == id_project_pairs(ms.take(k as int)),
        decreases idx@.len() - k,
    {
        let t = &all[idx[k]];
        proof {
            assert(ms[k as int] == all@[idx@[k as int] as int]);
        }
        let ghost before = list@;
        list.push((owned(t.id.as_str()), owned(t.project.as_str())));
        proof {
            assert(pair_views(list@) =~= pair_views(before).push((t.id@, t.project@)));
            assert(ms.take(k + 1) =~= ms.take(k as int).push(ms[k as int]));
            assert(id_project_pairs(ms.take(k + 1)) =~= id_project_pairs(ms.take(k as int)).push(
                (ms[k as int].id@, ms[k as int].project@),
            ));
        }
        k = k + 1;
    }
    assert(ms.take(k as int) =~= ms);
    Err(ResolveError::Ambiguous(owned(prefix), list))
}

impl ResolveError {
    /// The message the command line prints for this error.
    pub fn message(&self) -> (r: String)
        ensures
            r@ == match self {
                ResolveError::Empty => "empty session prefix"@,
                ResolveError::NotFound(q) => "no session matching prefix '"@ + q@ + "'"@,
                ResolveError::Ambiguous(q, list) => ambiguity_text(q@, pair_views(list@)),
            },
    {
        match self {
            ResolveError::Empty => owned("empty session prefix"),
            ResolveError::NotFound(q) => {
                let mut out = owned("no session matching prefix '");
                push_str(&mut out, q.as_str());
                push_str(&mut out, "'");
                out
            },
            ResolveError::Ambiguous(q, list) => ambiguity_message(q.as_str(), list),
        }
    }
}

/// `ambiguous prefix 'q' — n matches:` followed by one `  id  project` line
/// per match, trailing whitespace removed.
pub open spec fn ambiguity_text(q: Seq<char>, list: Seq<(Seq<char>, Seq<char>)>) -> Seq<char> {
    let full = "ambiguous prefix '"@ + q + "' — "@ + crate::text::decimal(list.len()) + " matches:\n"@
        + match_lines(list);
    full.take(full.len() - trail_ws(full))
}

pub open spec fn match_lines(list: Seq<(Seq<char>, Seq<char>)>) -> Seq<char>
    decreases list.len(),
{
    if list.len() == 0 {
        Seq::empty()
    } else {
        match_lines(list.drop_last()) + "  "@ + list.last().0 + "  "@ + list.last().1 + "\n"@
    }
}

fn ambiguity_message(q: &str, list: &Vec<(String, String)>) -> (r: String)
    ensures
        r@ == ambiguity_text(q@, pair_views(list@)),
{
    let mut full = owned("ambiguous prefix '");
    push_str(&mut full, q);
    push_str(&mut full, "' — ");
    crate::text::push_decimal(&mut full, list.len() as u64);
    push_str(&mut full, " matches:\n");
    let ghost head = full@;
    let ghost lv = pair_views(list@);
    let mut i: usize = 0;
    while i < list.len()
        invariant
            i <= list@.len(),
            lv == pair_views(list@),
            full@ == head + match_lines(lv.take(i as int)),
        decreases list@.len() - i,
    {
        proof {
            assert(lv.take(i + 1).drop_last() =~= lv.take(i as int));
            assert(lv.take(i + 1).last() == (list@[i as int].0@, list@[i as int].1@));
        }
        push_str(&mut full, "  ");
        push_str(&mut full, list[i].0.as_str());
        push_str(&mut full, "  ");
        push_str(&mut full, list[i].1.as_str());
        push_str(&mut full, "\n");
        i = i + 1;
    }
    assert(lv.take(i as int) =~= lv);
    crate::text::trim_end(&full)
}


/// Every transcript that a prefix matches has an id that starts with it.
pub proof fn lemma_prefix_matches_start(all: Seq<TranscriptFile>, prefix: Seq<char>)
    ensures
        forall|i: int|
            0 <= i < prefix_matches(all, prefix).len() ==> starts_with(
                (#[trigger] prefix_matches(all, prefix)[i]).id@,
                prefix,
            ),
    decreases all.len(),
{
    if all.len() > 0 {
        lemma_prefix_matches_start(all.drop_last(), prefix);
        let r = prefix_matches(all.drop_last(), prefix);
        assert forall|i: int| 0 <= i < prefix_matches(all, prefix).len() implies starts_with(
            (#[trigger] prefix_matches(all, prefix)[i]).id@,
            prefix,
        ) by {
            if i < r.len() {
                assert(prefix_matches(all, prefix)[i] == r[i]);
            }
        }
    }
}

/// The first transcript whose id is `prefix` exists once any does.
proof fn lemma_first_exact_witness(ms: Seq<TranscriptFile>, prefix: Seq<char>) -> (k: int)
    requires
        exists|i: int| 0 <= i < ms.len() && #[trigger] ms[i].id@ == prefix,
    ensures
        0 <= k < ms.len() && ms[k].id@ == prefix && forall|j: int|
            0 <= j < k ==> #[trigger] ms[j].id@ != prefix,
    decreases ms.len(),
{
    let init = ms.drop_last();
    if exists|i: int| 0 <= i < init.len() && #[trigger] init[i].id@ == prefix {
        let k = lemma_first_exact_witness(init, prefix);
        assert forall|j: int| 0 <= j < k implies #[trigger] ms[j].id@ != prefix by {
            assert(ms[j] == init[j]);
        }
        assert(ms[k] == init[k]);
        k
    } else {
        let k = ms.len() - 1;
        assert forall|j: int| 0 <= j < k implies #[trigger] ms[j].id@ != prefix by {
            assert(ms[j] == init[j]);
        }
        k
    }
}

/// A prefix leads only to a session whose id starts with it.
pub proof fn law_resolved_starts_with(all: Seq<TranscriptFile>, prefix: Seq<char>)
    ensures
        resolved(all, prefix) matches Some(t) ==> starts_with(t.id@, prefix),
{
    let ms = prefix_matches(all, prefix);
    lemma_prefix_matches_start(all, prefix);
    if exists|i: int| 0 <= i < ms.len() && #[trigger] ms[i].id@ == prefix {
        let k = lemma_first_exact_witness(ms, prefix);
        let w = choose|i: int|
            0 <= i < ms.len() && ms[i].id@ == prefix && forall|j: int|
                0 <= j < i ==> #[trigger] ms[j].id@ != prefix;
        assert(0 <= w < ms.len());
        assert(starts_with(ms[w].id@, prefix));
    }
}

/// Any prefix that exactly one session id starts with leads to that session.
pub proof fn law_unique_prefix_resolves(all: Seq<TranscriptFile>, prefix: Seq<char>)
    requires
        prefix_matches(all, prefix).len() == 1,
    ensures
        resolved(all, prefix) == Some(prefix_matches(all, prefix)[0]),
{
    let ms = prefix_matches(all, prefix);
    if exists|i: int| 0 <= i < ms.len() && #[trigger] ms[i].id@ == prefix {
        let pred = |i: int|
            0 <= i < ms.len() && ms[i].id@ == prefix && forall|j: int|
                0 <= j < i ==> #[trigger] ms[j].id@ != prefix;
        assert(pred(0));
        let w = choose|i: int|
            0 <= i < ms.len() && ms[i].id@ == prefix && forall|j: int|
                0 <= j < i ==> #[trigger] ms[j].id@ != prefix;
        assert(w == 0);
        assert(first_exact(ms, prefix) == Some(0int));
        assert(resolved(all, prefix) == Some(ms[0]));
    } else {
        assert(first_exact(ms, prefix) is None);
        assert(resolved(all, prefix) == Some(ms[0]));
    }
}

} // verus!
