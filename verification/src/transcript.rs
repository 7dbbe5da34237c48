//! Event model for coding-assistant session transcripts.
//!
//! A transcript is a `.jsonl` file where each line is a JSON event. Each line
//! is decoded into a [`RawEvent`] (its JSON fields as plain values), which
//! [`parse_raw_event`] turns into the uniform [`Event`] that presentation
//! (`show`, `grep`, `blame`, `commits`, `session`) shares.

use vstd::prelude::*;
use crate::text::{chars_of, owned, push_char, push_str, str_eq, trim, trim_range};

verus! {

broadcast use vstd::string::group_string_axioms;

/// Who an event is from, after the JSON `type` field.
#[derive(Debug, Clone, Copy, PartialEq, Eq, Structural)]
pub enum Role {
    User,
    Assistant,
    System,
    Other,
}

impl Role {
    /// The role a JSON `type` value names (`Other` for anything unknown).
    pub open spec fn from_name(s: Seq<char>) -> Role {
        if s == "user"@ {
            Role::User
        } else if s == "assistant"@ {
            Role::Assistant
        } else if s == "system"@ {
            Role::System
        } else {
            Role::Other
        }
    }

    /// The display label of the role.
    pub open spec fn name(self) -> Seq<char> {
        match self {
            Role::User => "user"@,
            Role::Assistant => "assistant"@,
            Role::System => "system"@,
            Role::Other => "other"@,
        }
    }

    /// Reading back the label of a role gives that role.
    pub proof fn law_label_round_trip(r: Role)
        ensures
            Role::from_name(r.name()) == r,
    {
        reveal_strlit("user");
        reveal_strlit("assistant");
        reveal_strlit("system");
        reveal_strlit("other");
        assert("user"@.len() == 4 && "system"@.len() == 6 && "assistant"@.len() == 9 && "other"@.len() == 5);
    }

    pub fn parse(s: &str) -> (r: Role)
        ensures
            r == Role::from_name(s@),
    {
        if str_eq(s, "user") {
            Role::User
        } else if str_eq(s, "assistant") {
            Role::Assistant
        } else if str_eq(s, "system") {
            Role::System
        } else {
            Role::Other
        }
    }

    pub fn label(&self) -> (l: &'static str)
        ensures
            l@ == self.name(),
    {
        match self {
            Role::User => "user",
            Role::Assistant => "assistant",
            Role::System => "system",
            Role::Other => "other",
        }
    }
}

/// One piece of an event's content.
#[derive(Debug)]
pub enum Part {
    Text(String),
    ToolUse {
        name: String,
        summary: String,
        /// `file_path` from the tool input, when present. Populated for tools
        /// that edit/read files (Edit, Write, MultiEdit, NotebookEdit, Read…).
        file_path: Option<String>,
    },
    ToolResult(String),
}

/// A [`Part`] with its strings seen as character sequences.
pub enum PartView {
    Text(Seq<char>),
    ToolUse { name: Seq<char>, summary: Seq<char>, file_path: Option<Seq<char>> },
    ToolResult(Seq<char>),
}

pub open spec fn opt_str_view(o: Option<String>) -> Option<Seq<char>> {
    match o {
        Some(s) => Some(s@),
        None => None,
    }
}

impl View for Part {
    type V = PartView;

    open spec fn view(&self) -> PartView {
        match self {
            Part::Text(s) => PartView::Text(s@),
            Part::ToolUse { name, summary, file_path } => PartView::ToolUse {
                name: name@,
                summary: summary@,
                file_path: opt_str_view(*file_path),
            },
            Part::ToolResult(s) => PartView::ToolResult(s@),
        }
    }
}

/// Tools that modify files on disk. Used by `cch session --touched`.
pub open spec fn is_edit_tool(name: Seq<char>) -> bool {
    name == "Edit"@ || name == "Write"@ || name == "MultiEdit"@ || name == "NotebookEdit"@
}

/// The text a search looks into: text and tool output, never tool calls.
pub open spec fn search_text(p: PartView) -> Seq<char> {
    match p {
        PartView::Text(s) => s,
        PartView::ToolResult(s) => s,
        PartView::ToolUse { .. } => Seq::empty(),
    }
}

impl Part {
    pub fn as_search_text(&self) -> (r: &str)
        ensures
            r@ == search_text(self@),
    {
        match self {
            Part::Text(s) => s.as_str(),
            Part::ToolResult(s) => s.as_str(),
            Part::ToolUse { .. } => {
                proof {
                    reveal_strlit("");
                }
                ""
            },
        }
    }
}

/// One transcript line.
#[derive(Debug)]
pub struct Event {
    pub role: Role,
    pub is_sidechain: bool,
    pub timestamp: Option<String>,
    pub parts: Vec<Part>,
}

/// An [`Event`] with its strings seen as character sequences.
pub struct EventView {
    pub role: Role,
    pub is_sidechain: bool,
    pub timestamp: Option<Seq<char>>,
    pub parts: Seq<PartView>,
}

impl View for Event {
    type V = EventView;

    open spec fn view(&self) -> EventView {
        EventView {
            role: self.role,
            is_sidechain: self.is_sidechain,
            timestamp: opt_str_view(self.timestamp),
            parts: self.parts@.map_values(|p: Part| p@),
        }
    }
}

/// The views of a list of events.
pub open spec fn events_view(v: Seq<Event>) -> Seq<EventView> {
    v.map_values(|e: Event| e@)
}

/// Every part is a tool result, and there is at least one.
pub open spec fn tool_only(e: EventView) -> bool {
    e.parts.len() > 0 && forall|i: int| 0 <= i < e.parts.len() ==> #[trigger] e.parts[i] is ToolResult
}

/// Empty after trimming, or opening with `<` (`<system-reminder>` and the like).
pub open spec fn is_wrapper_text(s: Seq<char>) -> bool {
    trim(s).len() == 0 || trim(s)[0] == '<'
}

/// A user event made only of wrapper texts.
pub open spec fn wrapper_user(e: EventView) -> bool {
    e.role == Role::User && forall|i: int|
        0 <= i < e.parts.len() ==> (#[trigger] e.parts[i] matches PartView::Text(s) && is_wrapper_text(s))
}

/// Counted in `cch show`'s default numbering.
pub open spec fn default_visible(e: EventView) -> bool {
    !e.is_sidechain && e.role != Role::System && e.parts.len() > 0 && !wrapper_user(e)
}

/// File paths written by the edit tools of an event, in order.
pub open spec fn edited(parts: Seq<PartView>) -> Seq<Seq<char>>
    decreases parts.len(),
{
    if parts.len() == 0 {
        Seq::empty()
    } else {
        let rest = edited(parts.drop_last());
        match parts.last() {
            PartView::ToolUse { name, file_path: Some(fp), .. } => if is_edit_tool(name) {
                rest.push(fp)
            } else {
                rest
            },
            _ => rest,
        }
    }
}

/// Whether the text `s` is a wrapper (see [`is_wrapper_text`]).
pub fn is_wrapper_str(s: &str) -> (r: bool)
    ensures
        r == is_wrapper_text(s@),
{
    let v = chars_of(s);
    let (lo, hi) = trim_range(&v);
    assert(v@.subrange(lo as int, hi as int).len() == hi - lo);
    lo == hi || v[lo] == '<'
}

pub fn is_edit_tool_exec(name: &str) -> (r: bool)
    ensures
        r == is_edit_tool(name@),
{
    str_eq(name, "Edit") || str_eq(name, "Write") || str_eq(name, "MultiEdit") || str_eq(
        name,
        "NotebookEdit",
    )
}

impl Event {
    /// True if every part in the event is a tool_result (typical for "user"-typed
    /// events that only carry tool output; these are labelled "tool" on display).
    pub fn is_tool_only(&self) -> (r: bool)
        ensures
            r == tool_only(self@),
    {
        if self.parts.len() == 0 {
            return false;
        }
        let mut i: usize = 0;
        while i < self.parts.len()
            invariant
                i <= self.parts@.len(),
                forall|j: int| 0 <= j < i ==> #[trigger] self@.parts[j] is ToolResult,
            decreases self.parts@.len() - i,
        {
            match &self.parts[i] {
                Part::ToolResult(_) => {},
                _ => {
                    assert(!(self@.parts[i as int] is ToolResult));
                    return false;
                },
            }
            i = i + 1;
        }
        true
    }

    /// True if this event is counted in `cch show`'s default numbering:
    /// no sidechains, no system, no empty events, no pure-wrapper user events
    /// (`<system-reminder>`-only).
    pub fn is_default_visible(&self) -> (r: bool)
        ensures
            r == default_visible(self@),
    {
        if self.is_sidechain || self.role == Role::System || self.parts.len() == 0 {
            return false;
        }
        !self.is_wrapper_user()
    }

    /// File paths edited by this event (Edit/Write/MultiEdit/NotebookEdit).
    pub fn edited_paths(&self) -> (r: Vec<String>)
        ensures
            r@.map_values(|s: String| s@) == edited(self@.parts),
    {
        let mut out: Vec<String> = Vec::new();
        let mut i: usize = 0;
        while i < self.parts.len()
            invariant
                i <= self.parts@.len(),
                out@.map_values(|s: String| s@) == edited(self@.parts.take(i as int)),
            decreases self.parts@.len() - i,
        {
            proof {
                assert(self@.parts.take(i + 1).drop_last() =~= self@.parts.take(i as int));
            }
            match &self.parts[i] {
                Part::ToolUse { name, file_path: Some(fp), .. } => {
                    if is_edit_tool_exec(name.as_str()) {
                        out.push(owned(fp.as_str()));
                    }
                },
                _ => {},
            }
            proof {
                assert(out@.map_values(|s: String| s@) =~= edited(self@.parts.take(i + 1)));
            }
            i = i + 1;
        }
        assert(self@.parts.take(self.parts@.len() as int) =~= self@.parts);
        out
    }

    /// Pure-wrapper user event: only text parts, all of which are empty or start
    /// with `<` (e.g. `<system-reminder>…`, `<command-message>…`).
    pub fn is_wrapper_user(&self) -> (r: bool)
        ensures
            r == wrapper_user(self@),
    {
        if self.role != Role::User {
            return false;
        }
        let mut i: usize = 0;
        while i < self.parts.len()
            invariant
                self.role == Role::User,
                i <= self.parts@.len(),
                forall|j: int|
                    0 <= j < i ==> (#[trigger] self@.parts[j] matches PartView::Text(s)
                        && is_wrapper_text(s)),
            decreases self.parts@.len() - i,
        {
            assert(self@.parts[i as int] == self.parts@[i as int]@);
            match &self.parts[i] {
                Part::Text(s) => {
                    if !is_wrapper_str(s.as_str()) {
                        return false;
                    }
                },
                _ => {
                    return false;
                },
            }
            i = i + 1;
        }
        true
    }
}

// ---------------------------------------------------------------------------
// Decoding a JSON line
// ---------------------------------------------------------------------------

/// A JSON value as plain data.
#[derive(Debug)]
pub enum JsonValue {
    Null,
    Bool(bool),
    /// A number, kept as its JSON text.
    Number(String),
    Str(String),
    Array(Vec<JsonValue>),
    Object(Vec<JsonEntry>),
}

/// One `key: value` member of a JSON object, in the object's order.
#[derive(Debug)]
pub struct JsonEntry {
    pub key: String,
    pub value: JsonValue,
}

/// The `message` field of an event line.
#[derive(Debug)]
pub struct RawMessage {
    pub content: Option<JsonValue>,
}

/// The fields of an event line that the event model reads.
#[derive(Debug)]
pub struct RawEvent {
    /// The `type` field.
    pub kind: Option<String>,
    /// The `isSidechain` field (false when absent).
    pub is_sidechain: bool,
    pub timestamp: Option<String>,
    pub message: Option<RawMessage>,
}

/// Index of the first member named `key`, or `entries.len()` when none is.
pub open spec fn key_index(entries: Seq<JsonEntry>, key: Seq<char>) -> int
    decreases entries.len(),
{
    if entries.len() == 0 {
        0
    } else if entries[0].key@ == key {
        0
    } else {
        1 + key_index(entries.drop_first(), key)
    }
}

pub proof fn lemma_key_index_bounds(entries: Seq<JsonEntry>, key: Seq<char>)
    ensures
        0 <= key_index(entries, key) <= entries.len(),
        key_index(entries, key) < entries.len() ==> entries[key_index(entries, key)].key@ == key,
        forall|j: int| 0 <= j < key_index(entries, key) ==> #[trigger] entries[j].key@ != key,
    decreases entries.len(),
{
    if entries.len() > 0 && entries[0].key@ != key {
        lemma_key_index_bounds(entries.drop_first(), key);
        assert forall|j: int| 0 <= j < key_index(entries, key) implies #[trigger] entries[j].key@
            != key by {
            if j > 0 {
                assert(entries[j] == entries.drop_first()[j - 1]);
            }
        }
    }
}

/// The value of member `key`, if present.
pub open spec fn lookup(entries: Seq<JsonEntry>, key: Seq<char>) -> Option<JsonValue> {
    let j = key_index(entries, key);
    if 0 <= j < entries.len() {
        Some(entries[j].value)
    } else {
        None
    }
}

/// The string held by member `key`, if it is a JSON string.
pub open spec fn lookup_str(entries: Seq<JsonEntry>, key: Seq<char>) -> Option<Seq<char>> {
    match lookup(entries, key) {
        Some(JsonValue::Str(s)) => Some(s@),
        _ => None,
    }
}

/// Up to the first 120 characters of `s`, with newlines turned into spaces.
pub open spec fn summary_value(s: Seq<char>) -> Seq<char> {
    s.take(if s.len() < 120 { s.len() as int } else { 120 }).map_values(
        |c: char|
            if c == '\n' {
                ' '
            } else {
                c
            },
    )
}

/// The tool-input keys a summary prefers, in order.
pub open spec fn summary_key(i: int) -> Seq<char> {
    if i == 0 {
        "command"@
    } else if i == 1 {
        "file_path"@
    } else if i == 2 {
        "path"@
    } else if i == 3 {
        "pattern"@
    } else if i == 4 {
        "query"@
    } else {
        "url"@
    }
}

/// `key=value` for the first preferred key from index `i` on that holds a string.
pub open spec fn summary_from(entries: Seq<JsonEntry>, i: int) -> Seq<char>
    decreases 6 - i,
{
    if i >= 6 || i < 0 {
        Seq::empty()
    } else {
        match lookup_str(entries, summary_key(i)) {
            Some(v) => summary_key(i) + "="@ + summary_value(v),
            None => summary_from(entries, i + 1),
        }
    }
}

/// One-line summary of a tool input (empty when the input is not an object).
pub open spec fn input_summary(input: Option<JsonValue>) -> Seq<char> {
    match input {
        Some(JsonValue::Object(entries)) => summary_from(entries@, 0),
        _ => Seq::empty(),
    }
}

/// `file_path` of a tool input, when it is a string.
pub open spec fn input_file_path(input: Option<JsonValue>) -> Option<Seq<char>> {
    match input {
        Some(JsonValue::Object(entries)) => lookup_str(entries@, "file_path"@),
        _ => None,
    }
}

/// The `type` member of a content item as a string (`""` when absent or not a string).
pub open spec fn item_type(entries: Seq<JsonEntry>) -> Seq<char> {
    match lookup_str(entries, "type"@) {
        Some(t) => t,
        None => Seq::empty(),
    }
}

/// Texts and tool outputs of `parts` joined by newlines (empty texts add no line break
/// before the next one while nothing has been written yet).
pub open spec fn joined_text(parts: Seq<PartView>) -> Seq<char>
    decreases parts.len(),
{
    if parts.len() == 0 {
        Seq::empty()
    } else {
        let a = joined_text(parts.drop_last());
        match parts.last() {
            PartView::Text(t) => if a.len() == 0 {
                t
            } else {
                a + seq!['\n'] + t
            },
            PartView::ToolResult(t) => if a.len() == 0 {
                t
            } else {
                a + seq!['\n'] + t
            },
            PartView::ToolUse { .. } => a,
        }
    }
}

/// Parts contributed by a message `content` value.
pub open spec fn parts_of(v: JsonValue) -> Seq<PartView>
    decreases v,
{
    match v {
        JsonValue::Str(s) => seq![PartView::Text(s@)],
        JsonValue::Array(arr) => items_parts(arr@),
        _ => Seq::empty(),
    }
}

/// Parts contributed by the items of a content array.
pub open spec fn items_parts(items: Seq<JsonValue>) -> Seq<PartView>
    decreases items,
{
    if items.len() == 0 {
        Seq::empty()
    } else {
        item_parts(items[0]) + items_parts(items.subrange(1, items.len() as int))
    }
}

/// Parts contributed by one item of a content array.
pub open spec fn item_parts(p: JsonValue) -> Seq<PartView>
    decreases p,
{
    match p {
        JsonValue::Object(entries) => {
            let t = item_type(entries@);
            if t == "text"@ {
                match lookup_str(entries@, "text"@) {
                    Some(s) => seq![PartView::Text(s)],
                    None => Seq::empty(),
                }
            } else if t == "tool_use"@ {
                let input = lookup(entries@, "input"@);
                seq![
                    PartView::ToolUse {
                        name: match lookup_str(entries@, "name"@) {
                            Some(n) => n,
                            None => "?"@,
                        },
                        summary: input_summary(input),
                        file_path: input_file_path(input),
                    },
                ]
            } else if t == "tool_result"@ {
                let j = key_index(entries@, "content"@);
                if 0 <= j < entries@.len() {
                    proof {
                        assert(decreases_to!(p => entries));
                        assert(decreases_to!(entries => entries@));
                        assert(decreases_to!(entries@ => entries@[j]));
                        assert(decreases_to!(entries@[j] => entries@[j].value));
                    }
                    seq![PartView::ToolResult(joined_text(parts_of(entries@[j].value)))]
                } else {
                    Seq::empty()
                }
            } else {
                Seq::empty()
            }
        },
        _ => Seq::empty(),
    }
}

/// The event an event line describes.
pub open spec fn event_of(raw: RawEvent) -> EventView {
    EventView {
        role: Role::from_name(
            match raw.kind {
                Some(k) => k@,
                None => Seq::empty(),
            },
        ),
        is_sidechain: raw.is_sidechain,
        timestamp: opt_str_view(raw.timestamp),
        parts: match raw.message {
            Some(RawMessage { content: Some(c) }) => parts_of(c),
            _ => Seq::empty(),
        },
    }
}

/// Index of member `key` (see [`key_index`]).
fn find_key(entries: &Vec<JsonEntry>, key: &str) -> (r: usize)
    ensures
        r == key_index(entries@, key@),
{
    proof {
        lemma_key_index_bounds(entries@, key@);
    }
    let mut j: usize = 0;
    while j < entries.len()
        invariant
            j <= entries@.len(),
            forall|k: int| 0 <= k < j ==> #[trigger] entries@[k].key@ != key@,
        decreases entries@.len() - j,
    {
        if str_eq(entries[j].key.as_str(), key) {
            proof {
                lemma_key_index_at(entries@, key@, j as int);
            }
            return j;
        }
        j = j + 1;
    }
    proof {
        lemma_key_index_at(entries@, key@, j as int);
    }
    j
}

proof fn lemma_key_index_at(entries: Seq<JsonEntry>, key: Seq<char>, j: int)
    requires
        0 <= j <= entries.len(),
        forall|k: int| 0 <= k < j ==> #[trigger] entries[k].key@ != key,
        j == entries.len() || entries[j].key@ == key,
    ensures
        key_index(entries, key) == j,
    decreases j,
{
    if j > 0 {
        let t = entries.drop_first();
        assert forall|k: int| 0 <= k < j - 1 implies #[trigger] t[k].key@ != key by {
            assert(t[k] == entries[k + 1]);
        }
        lemma_key_index_at(t, key, j - 1);
    }
}

/// The string held by member `key`, if it is a JSON string.
fn get_str<'a>(entries: &'a Vec<JsonEntry>, key: &str) -> (r: Option<&'a str>)
    ensures
        match r {
            Some(s) => lookup_str(entries@, key@) == Some(s@),
            None => lookup_str(entries@, key@) is None,
        },
{
    let j = find_key(entries, key);
    if j < entries.len() {
        match &entries[j].value {
            JsonValue::Str(s) => Some(s.as_str()),
            _ => None,
        }
    } else {
        None
    }
}

/// Appends `summary_value(v)` to `out`.
fn push_summary_value(out: &mut String, v: &str)
    ensures
        final(out)@ == old(out)@ + summary_value(v@),
{
    let cs = chars_of(v);
    let n: usize = if cs.len() < 120 {
        cs.len()
    } else {
        120
    };
    let ghost target = summary_value(v@);
    let mut i: usize = 0;
    while i < n
        invariant
            n <= cs@.len(),
            n == (if cs@.len() < 120 {
                cs@.len() as int
            } else {
                120
            }),
            cs@ == v@,
            target == summary_value(v@),
            target.len() == n,
            i <= n,
            out@ == old(out)@ + target.take(i as int),
        decreases n - i,
    {
        let c = cs[i];
        if c == '\n' {
            push_char(out, ' ');
        } else {
            push_char(out, c);
        }
        assert(target.take(i + 1) =~= target.take(i as int).push(target[i as int]));
        i = i + 1;
    }
    assert(target.take(n as int) =~= target);
}

/// One-line summary of a tool input (see [`input_summary`]).
fn tool_input_summary(input: Option<&JsonValue>) -> (r: String)
    ensures
        r@ == input_summary(
            match input {
                Some(v) => Some(*v),
                None => None,
            },
        ),
{
    let v = match input {
        Some(v) => v,
        None => {
            return String::new();
        },
    };
    let entries = match v {
        JsonValue::Object(entries) => entries,
        _ => {
            return String::new();
        },
    };
    assert(input_summary(Some(*v)) == summary_from(entries@, 0));
    let mut out = String::new();
    let mut i: usize = 0;
    while i < 6
        invariant
            i <= 6,
            summary_from(entries@, 0) == summary_from(entries@, i as int),
            input_summary(
                match input {
                    Some(v) => Some(*v),
                    None => None,
                },
            ) == summary_from(entries@, 0),
            out@ == Seq::<char>::empty(),
        decreases 6 - i,
    {
        let key: &str = if i == 0 {
            "command"
        } else if i == 1 {
            "file_path"
        } else if i == 2 {
            "path"
        } else if i == 3 {
            "pattern"
        } else if i == 4 {
            "query"
        } else {
            "url"
        };
        assert(key@ == summary_key(i as int));
        if let Some(v) = get_str(entries, key) {
            push_str(&mut out, key);
            push_char(&mut out, '=');
            push_summary_value(&mut out, v);
            proof {
                reveal_strlit("=");
            }
            assert(out@ =~= summary_key(i as int) + "="@ + summary_value(v@));
            assert(summary_from(entries@, i as int) == summary_key(i as int) + "="@ + summary_value(v@));
            return out;
        }
        i = i + 1;
    }
    out
}

/// Appends the parts that `v` contributes.
fn collect_parts(v: &JsonValue, out: &mut Vec<Part>)
    ensures
        final(out)@.map_values(|p: Part| p@) == old(out)@.map_values(|p: Part| p@) + parts_of(*v),
    decreases *v,
{
    match v {
        JsonValue::Str(s) => {
            out.push(Part::Text(owned(s.as_str())));
            assert(final(out)@.map_values(|p: Part| p@) =~= old(out)@.map_values(|p: Part| p@)
                + parts_of(*v));
        },
        JsonValue::Array(arr) => {
            let mut i: usize = 0;
            while i < arr.len()
                invariant
                    i <= arr@.len(),
                    *v == JsonValue::Array(*arr),
                    out@.map_values(|p: Part| p@) == old(out)@.map_values(|p: Part| p@)
                        + items_prefix(arr@, i as int),
                decreases arr@.len() - i,
            {
                proof {
                    assert(*arr == (*v)->Array_0);
                    assert(decreases_to!(*v => (*v)->Array_0@[i as int]));
                }
                collect_item(&arr[i], out);
                proof {
                    lemma_items_prefix_step(arr@, i as int);
                }
                i = i + 1;
            }
            proof {
                lemma_items_prefix_full(arr@);
            }
        },
        _ => {
            assert(final(out)@.map_values(|p: Part| p@) =~= old(out)@.map_values(|p: Part| p@)
                + parts_of(*v));
        },
    }
}

/// Parts of the first `i` items of a content array.
pub open spec fn items_prefix(items: Seq<JsonValue>, i: int) -> Seq<PartView>
    decreases i,
{
    if i <= 0 {
        Seq::empty()
    } else {
        items_prefix(items, i - 1) + item_parts(items[i - 1])
    }
}

proof fn lemma_items_prefix_step(items: Seq<JsonValue>, i: int)
    requires
        0 <= i < items.len(),
    ensures
        items_prefix(items, i + 1) == items_prefix(items, i) + item_parts(items[i]),
{
}

proof fn lemma_items_prefix_split(items: Seq<JsonValue>, i: int)
    requires
        0 <= i <= items.len(),
    ensures
        items_parts(items) == items_prefix(items, i) + items_parts(items.subrange(i, items.len() as int)),
    decreases i,
{
    if i == 0 {
        assert(items.subrange(0, items.len() as int) =~= items);
        assert(items_prefix(items, 0) + items_parts(items) =~= items_parts(items));
    } else {
        lemma_items_prefix_split(items, i - 1);
        let tail = items.subrange(i - 1, items.len() as int);
        assert(tail[0] == items[i - 1]);
        assert(tail.subrange(1, tail.len() as int) =~= items.subrange(i, items.len() as int));
        assert(items_parts(tail) == item_parts(items[i - 1]) + items_parts(items.subrange(i, items.len() as int)));
        assert(items_prefix(items, i) + items_parts(items.subrange(i, items.len() as int))
            =~= items_prefix(items, i - 1) + items_parts(tail));
    }
}

proof fn lemma_items_prefix_full(items: Seq<JsonValue>)
    ensures
        items_prefix(items, items.len() as int) == items_parts(items),
{
    lemma_items_prefix_split(items, items.len() as int);
    let e = items.subrange(items.len() as int, items.len() as int);
    assert(e.len() == 0);
    assert(items_parts(e) =~= Seq::<PartView>::empty());
    assert(items_prefix(items, items.len() as int) + items_parts(e) =~= items_prefix(items, items.len() as int));
}

/// Joins the texts and tool outputs of `parts` (see [`joined_text`]).
fn join_texts(parts: &Vec<Part>) -> (r: String)
    ensures
        r@ == joined_text(parts@.map_values(|p: Part| p@)),
{
    let ghost pv = parts@.map_values(|p: Part| p@);
    let mut s = String::new();
    let mut i: usize = 0;
    while i < parts.len()
        invariant
            i <= parts@.len(),
            pv == parts@.map_values(|p: Part| p@),
            s@ == joined_text(pv.take(i as int)),
        decreases parts@.len() - i,
    {
        proof {
            assert(pv.take(i + 1).drop_last() =~= pv.take(i as int));
            assert(pv.take(i + 1).last() == parts@[i as int]@);
        }
        match &parts[i] {
            Part::Text(t) => {
                if !s.as_str().is_empty() {
                    push_char(&mut s, '\n');
                }
                push_str(&mut s, t.as_str());
            },
            Part::ToolResult(t) => {
                if !s.as_str().is_empty() {
                    push_char(&mut s, '\n');
                }
                push_str(&mut s, t.as_str());
            },
            Part::ToolUse { .. } => {},
        }
        assert(s@ =~= joined_text(pv.take(i + 1)));
        i = i + 1;
    }
    assert(pv.take(parts@.len() as int) =~= pv);
    s
}

/// Appends the parts that one content-array item contributes.
fn collect_item(p: &JsonValue, out: &mut Vec<Part>)
    ensures
        final(out)@.map_values(|q: Part| q@) == old(out)@.map_values(|q: Part| q@) + item_parts(*p),
    decreases *p,
{
    let entries = match p {
        JsonValue::Object(entries) => entries,
        _ => {
            assert(final(out)@.map_values(|q: Part| q@) =~= old(out)@.map_values(|q: Part| q@)
                + item_parts(*p));
            return;
        },
    };
    let t: &str = match get_str(entries, "type") {
        Some(t) => t,
        None => {
            proof {
                reveal_strlit("");
            }
            ""
        },
    };
    assert(t@ == item_type(entries@));
    if str_eq(t, "text") {
        if let Some(s) = get_str(entries, "text") {
            out.push(Part::Text(owned(s)));
        }
    } else if str_eq(t, "tool_use") {
        let name = match get_str(entries, "name") {
            Some(n) => owned(n),
            None => owned("?"),
        };
        let j = find_key(entries, "input");
        let input: Option<&JsonValue> = if j < entries.len() {
            Some(&entries[j].value)
        } else {
            None
        };
        let summary = tool_input_summary(input);
        let file_path: Option<String> = match input {
            Some(JsonValue::Object(o)) => match get_str(o, "file_path") {
                Some(f) => Some(owned(f)),
                None => None,
            },
            _ => None,
        };
        out.push(Part::ToolUse { name, summary, file_path });
    } else if str_eq(t, "tool_result") {
        let j = find_key(entries, "content");
        if j < entries.len() {
            proof {
                assert(decreases_to!(*p => *entries));
                assert(decreases_to!(*entries => entries@));
                assert(decreases_to!(entries@ => entries@[j as int]));
                assert(decreases_to!(entries@[j as int] => entries@[j as int].value));
            }
            let mut sub: Vec<Part> = Vec::new();
            collect_parts(&entries[j].value, &mut sub);
            assert(sub@.map_values(|q: Part| q@) =~= parts_of(entries@[j as int].value));
            let s = join_texts(&sub);
            out.push(Part::ToolResult(s));
        }
    }
    assert(final(out)@.map_values(|q: Part| q@) =~= old(out)@.map_values(|q: Part| q@) + item_parts(
        *p,
    ));
}

/// Builds the event that an event line describes.
pub fn parse_raw_event(raw: &RawEvent) -> (ev: Event)
    ensures
        ev@ == event_of(*raw),
{
    let kind: &str = match &raw.kind {
        Some(k) => k.as_str(),
        None => {
            proof {
                reveal_strlit("");
            }
            assert(""@ =~= Seq::<char>::empty());
            ""
        },
    };
    let role = Role::parse(kind);
    let mut parts: Vec<Part> = Vec::new();
    if let Some(msg) = &raw.message {
        if let Some(content) = &msg.content {
            collect_parts(content, &mut parts);
        }
    }
    let timestamp = match &raw.timestamp {
        Some(t) => Some(owned(t.as_str())),
        None => None,
    };
    let ev = Event { role, is_sidechain: raw.is_sidechain, timestamp, parts };
    assert(ev@.parts =~= event_of(*raw).parts);
    assert(ev@.role == event_of(*raw).role);
    assert(ev@.timestamp == event_of(*raw).timestamp);
    ev
}

} // verus!
