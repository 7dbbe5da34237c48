//! Project directories of the transcript store: how a working directory
//! is encoded into a directory name, and how a `--project` argument selects
//! one.

use vstd::prelude::*;
use crate::text::{
    chars_of, contains, debug_str, debug_text, ends_with, join_strings, joined, occurs_at_exec, push_char,
    push_str, starts_with, str_eq,
};

verus! {

broadcast use vstd::string::group_string_axioms;

/// The assistant encodes the absolute working directory by replacing both `/`
/// and `.` with `-`.
pub open spec fn encoded(path: Seq<char>) -> Seq<char> {
    path.map_values(|c: char| if c == '/' || c == '.' { '-' } else { c })
}

/// Encoding keeps the length and every other character, and leaves no `/`
/// and no `.` behind.
pub proof fn law_encoded_shape(path: Seq<char>)
    ensures
        encoded(path).len() == path.len(),
        forall|i: int|
            0 <= i < path.len() ==> {
                let c = #[trigger] encoded(path)[i];
                &&& c != '/'
                &&& c != '.'
                &&& (path[i] != '/' && path[i] != '.' ==> c == path[i])
            },
{
}

pub fn encode_cwd(cwd: &str) -> (r: String)
    ensures
        r@ == encoded(cwd@),
{
    let v = chars_of(cwd);
    let mut out = String::new();
    let mut i: usize = 0;
    while i < v.len()
        invariant
            i <= v@.len(),
            out@ == encoded(v@.take(i as int)),
        decreases v@.len() - i,
    {
        let c = v[i];
        push_char(&mut out, if c == '/' || c == '.' { '-' } else { c });
        assert(encoded(v@.take(i + 1)) =~= encoded(v@.take(i as int)).push(
            if v@[i as int] == '/' || v@[i as int] == '.' { '-' } else { v@[i as int] },
        ));
        i = i + 1;
    }
    assert(v@.take(v@.len() as int) =~= v@);
    out
}

/// A `--project` argument written as a path (`/abs`, `~/...`, `./x`, or
/// anything with a `/`), rather than a bare worktree name.
pub open spec fn path_like(name: Seq<char>) -> bool {
    starts_with(name, "/"@) || starts_with(name, "~"@) || starts_with(name, "."@) || contains(name, "/"@)
}

pub fn is_path_like(name: &str) -> (r: bool)
    ensures
        r == path_like(name@),
{
    let v = chars_of(name);
    let slash = chars_of("/");
    let tilde = chars_of("~");
    let dot = chars_of(".");
    occurs_at_exec(&v, &slash, 0) || occurs_at_exec(&v, &tilde, 0) || occurs_at_exec(&v, &dot, 0)
        || crate::text::contains_exec(&v, &slash)
}

/// `-` followed by the name with every `.` turned into `-`.
pub open spec fn name_suffix(name: Seq<char>) -> Seq<char> {
    seq!['-'] + name.map_values(|c: char| if c == '.' { '-' } else { c })
}

/// A project directory belongs to the worktree called `name`: its encoded
/// name is the suffix without its dash, or ends with the suffix.
pub open spec fn names_project(dir: Seq<char>, name: Seq<char>) -> bool {
    dir == name_suffix(name).drop_first() || ends_with(dir, name_suffix(name))
}

/// Indices of the directories of `dirs` that belong to the worktree called
/// `name`, in order.
pub open spec fn matching_indices(dirs: Seq<String>, name: Seq<char>) -> Seq<usize>
    decreases dirs.len(),
{
    if dirs.len() == 0 {
        Seq::empty()
    } else {
        let r = matching_indices(dirs.drop_last(), name);
        if names_project(dirs.last()@, name) {
            r.push((dirs.len() - 1) as usize)
        } else {
            r
        }
    }
}

/// Indices of the project directories (by name, in listing order) that
/// belong to the worktree called `name`.
pub fn matching_projects(name: &str, dirs: &Vec<String>) -> (r: Vec<usize>)
    ensures
        r@ == matching_indices(dirs@, name@),
        forall|k: int| 0 <= k < r@.len() ==> #[trigger] r@[k] < dirs@.len(),
        forall|k: int, j: int| 0 <= k < j < r@.len() ==> r@[k] < r@[j],
        forall|i: int|
            0 <= i < dirs@.len() ==> (names_project(#[trigger] dirs@[i]@, name@) <==> r@.contains(
                i as usize,
            )),
{
    let v = chars_of(name);
    let mut suffix = String::new();
    push_char(&mut suffix, '-');
    let mut i: usize = 0;
    while i < v.len()
        invariant
            i <= v@.len(),
            suffix@ == seq!['-'] + v@.take(i as int).map_values(|c: char| if c == '.' { '-' } else { c }),
        decreases v@.len() - i,
    {
        let c = v[i];
        push_char(&mut suffix, if c == '.' { '-' } else { c });
        assert(v@.take(i + 1).map_values(|c: char| if c == '.' { '-' } else { c }) =~= v@.take(
            i as int,
        ).map_values(|c: char| if c == '.' { '-' } else { c }).push(
            if v@[i as int] == '.' { '-' } else { v@[i as int] },
        ));
        i = i + 1;
    }
    assert(v@.take(v@.len() as int) =~= v@);
    assert(suffix@ == name_suffix(name@));
    let sv = chars_of(suffix.as_str());
    let bare = crate::text::string_of_range(&sv, 1, sv.len());
    assert(bare@ =~= name_suffix(name@).drop_first());
    let mut out: Vec<usize> = Vec::new();
    let mut k: usize = 0;
    while k < dirs.len()
        invariant
            k <= dirs@.len(),
            sv@ == name_suffix(name@),
            bare@ == name_suffix(name@).drop_first(),
            forall|m: int| 0 <= m < out@.len() ==> #[trigger] out@[m] < k,
            forall|m: int, j: int| 0 <= m < j < out@.len() ==> out@[m] < out@[j],
            forall|x: int|
                0 <= x < k ==> (names_project(#[trigger] dirs@[x]@, name@) <==> out@.contains(x as usize)),
            out@ == matching_indices(dirs@.take(k as int), name@),
        decreases dirs@.len() - k,
    {
        proof {
            assert(dirs@.take(k + 1).drop_last() =~= dirs@.take(k as int));
            assert(dirs@.take(k + 1).last() == dirs@[k as int]);
        }
        let d = chars_of(dirs[k].as_str());
        let hit = str_eq(dirs[k].as_str(), bare.as_str()) || (sv.len() <= d.len() && occurs_at_exec(
            &d,
            &sv,
            d.len() - sv.len(),
        ));
        proof {
            if sv@.len() > d@.len() {
                assert(!ends_with(d@, sv@));
            }
        }
        let ghost before = out@;
        if hit {
            out.push(k);
            proof {
                assert forall|x: int| 0 <= x < k + 1 implies (names_project(#[trigger] dirs@[x]@, name@)
                    <==> out@.contains(x as usize)) by {
                    if x < k {
                        if out@.contains(x as usize) {
                            let w = choose|w: int| 0 <= w < out@.len() && out@[w] == x as usize;
                            if w < before.len() {
                                assert(before[w] == x as usize);
                            }
                        }
                        if before.contains(x as usize) {
                            let w = choose|w: int| 0 <= w < before.len() && before[w] == x as usize;
                            assert(out@[w] == x as usize);
                        }
                    } else {
                        assert(out@[before.len() as int] == k);
                    }
                }
            }
        } else {
            proof {
                assert forall|x: int| 0 <= x < k + 1 implies (names_project(#[trigger] dirs@[x]@, name@)
                    <==> out@.contains(x as usize)) by {
                    if x == k {
                        if out@.contains(x as usize) {
                            let w = choose|w: int| 0 <= w < out@.len() && out@[w] == x as usize;
                        }
                    }
                }
            }
        }
        k = k + 1;
    }
    assert(dirs@.take(dirs@.len() as int) =~= dirs@);
    out
}

/// Why a `--project` name selects no single project directory.
#[derive(Debug)]
pub enum ProjectError {
    /// No directory belongs to the name.
    NoMatch(String),
    /// The name, and every directory that belongs to it, in order.
    Ambiguous(String, Vec<String>),
}

pub open spec fn name_views(v: Seq<String>) -> Seq<Seq<char>> {
    v.map_values(|s: String| s@)
}

/// Picks the one project directory (by index into `dirs`) that belongs to
/// the worktree called `name`; none or several are refused.
pub fn pick_project(name: &str, dirs: &Vec<String>) -> (r: Result<usize, ProjectError>)
    ensures
        match r {
            Ok(i) => matching_indices(dirs@, name@) == seq![i],
            Err(ProjectError::NoMatch(n)) => matching_indices(dirs@, name@).len() == 0 && n@ == name@,
            Err(ProjectError::Ambiguous(n, list)) => {
                &&& matching_indices(dirs@, name@).len() > 1
                &&& n@ == name@
                &&& name_views(list@) == matching_indices(dirs@, name@).map_values(|i: usize| dirs@[i as int]@)
            },
        },
{
    let found = matching_projects(name, dirs);
    proof {
        lemma_matching_indices_bound(dirs@, name@);
    }
    if found.len() == 0 {
        return Err(ProjectError::NoMatch(crate::text::owned(name)));
    }
    if found.len() == 1 {
        assert(found@ =~= seq![found@[0]]);
        return Ok(found[0]);
    }
    let mut list: Vec<String> = Vec::new();
    let mut j: usize = 0;
    while j < found.len()
        invariant
            j <= found@.len(),
            found@ == matching_indices(dirs@, name@),
            forall|m: int| 0 <= m < found@.len() ==> #[trigger] found@[m] < dirs@.len(),
            name_views(list@) == found@.take(j as int).map_values(|i: usize| dirs@[i as int]@),
        decreases found@.len() - j,
    {
        let d = crate::text::owned(dirs[found[j]].as_str());
        list.push(d);
        proof {
            assert(found@.take(j + 1).map_values(|i: usize| dirs@[i as int]@) =~= found@.take(
                j as int,
            ).map_values(|i: usize| dirs@[i as int]@).push(dirs@[found@[j as int] as int]@));
            assert(name_views(list@) =~= name_views(list@.drop_last()).push(list@.last()@));
        }
        j = j + 1;
    }
    assert(found@.take(found@.len() as int) =~= found@);
    Err(ProjectError::Ambiguous(crate::text::owned(name), list))
}

proof fn lemma_matching_indices_bound(dirs: Seq<String>, name: Seq<char>)
    ensures
        forall|m: int|
            0 <= m < matching_indices(dirs, name).len() ==> #[trigger] matching_indices(dirs, name)[m] < dirs.len(),
    decreases dirs.len(),
{
    if dirs.len() > 0 {
        lemma_matching_indices_bound(dirs.drop_last(), name);
        let r = matching_indices(dirs.drop_last(), name);
        assert forall|m: int| 0 <= m < matching_indices(dirs, name).len() implies #[trigger] matching_indices(
            dirs,
            name,
        )[m] < dirs.len() by {
            if m < r.len() {
                assert(matching_indices(dirs, name)[m] == r[m]);
            }
        }
    }
}

impl ProjectError {
    /// The message the command line prints for this error; `root` is the
    /// directory the projects were looked for in.
    pub fn message(&self, root: &str) -> (r: String)
        ensures
            r@ == match self {
                ProjectError::NoMatch(n) => "no project matches "@ + debug_text(n@) + " under "@ + root@
                    + "\n  (try a path, or `ls "@ + root@ + "`)"@,
                ProjectError::Ambiguous(n, list) => "ambiguous project "@ + debug_text(n@) + ", candidates:\n  "@
                    + joined(name_views(list@), "\n  "@),
            },
    {
        match self {
            ProjectError::NoMatch(n) => {
                let mut out = crate::text::owned("no project matches ");
                let q = debug_str(n.as_str());
                push_str(&mut out, q.as_str());
                push_str(&mut out, " under ");
                push_str(&mut out, root);
                push_str(&mut out, "\n  (try a path, or `ls ");
                push_str(&mut out, root);
                push_str(&mut out, "`)");
                out
            },
            ProjectError::Ambiguous(n, list) => {
                let mut out = crate::text::owned("ambiguous project ");
                let q = debug_str(n.as_str());
                push_str(&mut out, q.as_str());
                push_str(&mut out, ", candidates:\n  ");
                let j = join_strings(list, "\n  ");
                push_str(&mut out, j.as_str());
                out
            },
        }
    }
}

} // verus!
