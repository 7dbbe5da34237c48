//! The command line: its arguments as plain data, and what each subcommand
//! is asked to do once its arguments are checked.

use vstd::prelude::*;
use crate::commands;
use crate::text::{all_ascii_digits, chars_of, owned, string_of_range};
use crate::timebounds::{bound_of, parse_bound, BoundError};
use crate::transcript::{opt_str_view, Role};
use crate::turns::{turn_parse, TurnParse, TurnSpec, TurnSpecError};

verus! {

broadcast use vstd::string::group_string_axioms;

pub struct Cli {
    pub command: Command,
}

#[derive(Debug, Clone, Copy, PartialEq, Eq, Structural)]
pub enum RoleArg {
    User,
    Assistant,
    Any,
}

pub open spec fn role_of(r: RoleArg) -> Option<Role> {
    match r {
        RoleArg::User => Some(Role::User),
        RoleArg::Assistant => Some(Role::Assistant),
        RoleArg::Any => None,
    }
}

impl RoleArg {
    pub fn to_role(self) -> (r: Option<Role>)
        ensures
            r == role_of(self),
    {
        match self {
            RoleArg::User => Some(Role::User),
            RoleArg::Assistant => Some(Role::Assistant),
            RoleArg::Any => None,
        }
    }
}

pub enum Command {
    /// List recent sessions for the current project (most recent first).
    Session {
        count: Option<usize>,
        all: bool,
        after: Option<String>,
        before: Option<String>,
        project: Option<String>,
        touched: Option<String>,
        produced_commit: Option<String>,
        head: Option<usize>,
    },
    /// Search transcripts; matches grouped by session, recent first.
    Grep {
        pattern: String,
        here: bool,
        project: Option<String>,
        case_sensitive: bool,
        regex: bool,
        no_tools: bool,
        role: RoleArg,
        sidechains: bool,
        after: Option<String>,
        before: Option<String>,
        after_context: Option<usize>,
        before_context: Option<usize>,
        context: Option<usize>,
        turns: Option<String>,
        json: bool,
        files_with_matches: bool,
        reverse: bool,
        stats: bool,
    },
    /// Commits a session produced (inverse of `cch blame`).
    Commits { prefix: String, all: bool },
    /// Which session produced a commit.
    Blame { sha: String },
    /// Print the long help for every subcommand.
    HelpAll,
    /// Render a transcript (resolves by unique id prefix).
    Show { prefix: String, sidechains: bool, system: bool, role: RoleArg, turns: Option<String> },
}

/// A `grep` invocation whose bounds are parsed; the project (a name or a path)
/// and the turn selector are resolved next.
pub struct GrepPlan {
    pub pattern: String,
    pub here: bool,
    pub project: Option<String>,
    pub case_sensitive: bool,
    pub regex: bool,
    pub role: Option<Role>,
    pub include_sidechains: bool,
    pub no_tools: bool,
    pub after: Option<String>,
    pub before: Option<String>,
    pub context_before: usize,
    pub context_after: usize,
    pub turns: Option<String>,
    pub json: bool,
    pub files_with_matches: bool,
    pub reverse: bool,
    pub stats: bool,
}

/// What a subcommand is asked to do. The `session` and `grep` project
/// arguments are still to be resolved against the project directories.
pub enum Plan {
    Session { opts: commands::session::Opts, project: Option<String> },
    Grep(GrepPlan),
    Commits(commands::commits::Opts),
    Blame(commands::blame::Opts),
    HelpAll,
    Show(commands::show::Opts),
}

/// Why the arguments were refused.
#[derive(Debug)]
pub enum CliError {
    Bound(BoundError),
    Turns(TurnSpecError),
}

impl CliError {
    /// The message the command line prints for this error.
    pub fn message(&self) -> (r: String)
        ensures
            r@ == match self {
                CliError::Bound(e) => e.message_view(),
                CliError::Turns(e) => e.message_view(),
            },
    {
        match self {
            CliError::Bound(e) => e.message(),
            CliError::Turns(e) => e.message(),
        }
    }
}

/// A `--after`/`--before` value parses as a bound (see [`bound_of`]).
pub open spec fn bound_parsed(arg: Option<String>, r: Option<String>) -> bool {
    match (arg, r) {
        (None, None) => true,
        (Some(a), Some(b)) => bound_of(a@) == Ok::<Seq<char>, bool>(b@),
        _ => false,
    }
}

/// A `--after`/`--before` value that is present and does not parse.
pub open spec fn bound_refused(arg: Option<String>) -> bool {
    arg matches Some(a) && bound_of(a@) is Err
}

/// `e` is the error [`parse_bound`] gives for the refused value `arg`.
pub open spec fn bound_error(arg: Option<String>, e: BoundError) -> bool {
    match (e, arg) {
        (BoundError::InvalidDate(x), Some(a)) => x@ == a@ && bound_of(a@) == Err::<Seq<char>, bool>(true),
        (BoundError::InvalidTime(x), Some(a)) => x@ == a@ && bound_of(a@) == Err::<Seq<char>, bool>(false),
        _ => false,
    }
}

/// The error for the first refused of two bounds.
pub open spec fn first_bound_error(after: Option<String>, before: Option<String>, e: BoundError) -> bool {
    if bound_refused(after) {
        bound_error(after, e)
    } else {
        bound_refused(before) && bound_error(before, e)
    }
}

fn parse_opt_bound(arg: Option<String>) -> (r: Result<Option<String>, BoundError>)
    ensures
        match r {
            Ok(b) => bound_parsed(arg, b),
            Err(e) => bound_refused(arg) && bound_error(arg, e),
        },
{
    match arg {
        None => Ok(None),
        Some(a) => match parse_bound(a.as_str()) {
            Ok(b) => Ok(Some(b)),
            Err(e) => Err(e),
        },
    }
}

/// `-A`/`-B` fall back to `-C`, then to 0.
pub open spec fn context_width(side: Option<usize>, both: Option<usize>) -> usize {
    match side {
        Some(n) => n,
        None => match both {
            Some(n) => n,
            None => 0,
        },
    }
}

/// Checks the bounds of the command and maps its arguments to the options of
/// its subcommand: bounds normalized, roles mapped (`any` is no filter),
/// context widths defaulted. The first bound that does not parse (`after`
/// before `before`) is refused.
pub fn dispatch(cli: Cli) -> (r: Result<Plan, CliError>)
    ensures
        match (cli.command, r) {
            (Command::Session { count, all, after, before, project, touched, produced_commit, head }, Ok(Plan::Session { opts, project: p })) => {
                &&& bound_parsed(after, opts.after)
                &&& bound_parsed(before, opts.before)
                &&& opts.count == count && opts.include_empty == all && opts.head == head
                &&& opts.project is None
                &&& opt_str_view(opts.touched) == opt_str_view(touched)
                &&& opt_str_view(opts.produced_commit) == opt_str_view(produced_commit)
                &&& opt_str_view(p) == opt_str_view(project)
            },
            (Command::Session { after, before, .. }, Err(CliError::Bound(e))) => first_bound_error(after, before, e),
            (Command::Grep { pattern, here, project, case_sensitive, regex, no_tools, role, sidechains, after, before, after_context, before_context, context, turns, json, files_with_matches, reverse, stats }, Ok(Plan::Grep(g))) => {
                &&& bound_parsed(after, g.after)
                &&& bound_parsed(before, g.before)
                &&& g.pattern@ == pattern@ && g.here == here && opt_str_view(g.project) == opt_str_view(project)
                &&& g.case_sensitive == case_sensitive && g.regex == regex && g.no_tools == no_tools
                &&& g.role == role_of(role) && g.include_sidechains == sidechains
                &&& g.context_after == context_width(after_context, context)
                &&& g.context_before == context_width(before_context, context)
                &&& opt_str_view(g.turns) == opt_str_view(turns)
                &&& g.json == json && g.files_with_matches == files_with_matches && g.reverse == reverse && g.stats == stats
            },
            (Command::Grep { after, before, .. }, Err(CliError::Bound(e))) => first_bound_error(after, before, e),
            (Command::Commits { prefix, all }, Ok(Plan::Commits(o))) => o.prefix@ == prefix@ && o.all == all,
            (Command::Blame { sha }, Ok(Plan::Blame(o))) => o.sha@ == sha@,
            (Command::HelpAll, Ok(Plan::HelpAll)) => true,
            (Command::Show { prefix, sidechains, system, role, turns }, Ok(Plan::Show(o))) => {
                &&& o.prefix@ == prefix@ && o.include_sidechains == sidechains && o.include_system == system
                &&& o.role == role_of(role) && opt_str_view(o.turns) == opt_str_view(turns)
            },
            _ => false,
        },
{
    match cli.command {
        Command::Session { count, all, after, before, project, touched, produced_commit, head } => {
            let after = match parse_opt_bound(after) {
                Ok(b) => b,
                Err(e) => {
                    return Err(CliError::Bound(e));
                },
            };
            let before = match parse_opt_bound(before) {
                Ok(b) => b,
                Err(e) => {
                    return Err(CliError::Bound(e));
                },
            };
            Ok(
                Plan::Session {
                    opts: commands::session::Opts {
                        count,
                        include_empty: all,
                        after,
                        before,
                        project: None,
                        touched,
                        produced_commit,
                        head,
                    },
                    project,
                },
            )
        },
        Command::Grep {
            pattern,
            here,
            project,
            case_sensitive,
            regex,
            no_tools,
            role,
            sidechains,
            after,
            before,
            after_context,
            before_context,
            context,
            turns,
            json,
            files_with_matches,
            reverse,
            stats,
        } => {
            let after = match parse_opt_bound(after) {
                Ok(b) => b,
                Err(e) => {
                    return Err(CliError::Bound(e));
                },
            };
            let before = match parse_opt_bound(before) {
                Ok(b) => b,
                Err(e) => {
                    return Err(CliError::Bound(e));
                },
            };
            let context_after = match after_context {
                Some(n) => n,
                None => match context {
                    Some(n) => n,
                    None => 0,
                },
            };
            let context_before = match before_context {
                Some(n) => n,
                None => match context {
                    Some(n) => n,
                    None => 0,
                },
            };
            Ok(
                Plan::Grep(
                    GrepPlan {
                        pattern,
                        here,
                        project,
                        case_sensitive,
                        regex,
                        role: role.to_role(),
                        include_sidechains: sidechains,
                        no_tools,
                        after,
                        before,
                        context_before,
                        context_after,
                        turns,
                        json,
                        files_with_matches,
                        reverse,
                        stats,
                    },
                ),
            )
        },
        Command::Commits { prefix, all } => Ok(Plan::Commits(commands::commits::Opts { prefix, all })),
        Command::Blame { sha } => Ok(Plan::Blame(commands::blame::Opts { sha })),
        Command::HelpAll => Ok(Plan::HelpAll),
        Command::Show { prefix, sidechains, system, role, turns } => Ok(
            Plan::Show(
                commands::show::Opts {
                    prefix,
                    include_sidechains: sidechains,
                    include_system: system,
                    role: role.to_role(),
                    turns,
                },
            ),
        ),
    }
}

/// The options of `cch grep` once the project is resolved to a directory:
/// the turn selector is parsed last, so a bad bound or project is reported
/// before a bad selector.
pub fn grep_opts(g: GrepPlan, project_dir: Option<String>) -> (r: Result<commands::grep::opts::Opts, TurnSpecError>)
    ensures
        match (g.turns, r) {
            (None, Ok(o)) => o.turns is None,
            (Some(t), Ok(o)) => turn_parse(t@) matches TurnParse::Spec(s) && o.turns == Some(s),
            (Some(t), Err(e)) => crate::turns::parse_matches(Err(e), turn_parse(t@)),
            (None, Err(_)) => false,
        },
        r matches Ok(o) ==> {
            &&& o.pattern@ == g.pattern@ && o.here == g.here && opt_str_view(o.project) == opt_str_view(project_dir)
            &&& o.case_sensitive == g.case_sensitive && o.regex == g.regex && o.role == g.role
            &&& o.include_sidechains == g.include_sidechains && o.no_tools == g.no_tools
            &&& opt_str_view(o.after) == opt_str_view(g.after) && opt_str_view(o.before) == opt_str_view(g.before)
            &&& o.context_before == g.context_before && o.context_after == g.context_after
            &&& o.json == g.json && o.files_with_matches == g.files_with_matches && o.reverse == g.reverse
            &&& o.stats == g.stats
        },
{
    let turns = match &g.turns {
        Some(t) => match TurnSpec::parse(t.as_str()) {
            Ok(s) => Some(s),
            Err(e) => {
                return Err(e);
            },
        },
        None => None,
    };
    Ok(
        commands::grep::opts::Opts {
            pattern: g.pattern,
            here: g.here,
            project: project_dir,
            case_sensitive: g.case_sensitive,
            regex: g.regex,
            role: g.role,
            include_sidechains: g.include_sidechains,
            no_tools: g.no_tools,
            after: g.after,
            before: g.before,
            context_before: g.context_before,
            context_after: g.context_after,
            turns,
            json: g.json,
            files_with_matches: g.files_with_matches,
            reverse: g.reverse,
            stats: g.stats,
        },
    )
}

// ---------------------------------------------------------------------------
// `cch session -3`
// ---------------------------------------------------------------------------

/// The argument is the text `session`.
pub open spec fn is_session(o: Option<String>) -> bool {
    match o {
        Some(a) => a@ == "session"@,
        None => false,
    }
}

/// The digits of a `-<digits>` argument.
pub open spec fn dash_digits(o: Option<String>) -> Option<Seq<char>> {
    match o {
        Some(a) => if a@.len() > 1 && a@[0] == '-' && all_ascii_digits(a@.drop_first()) {
            Some(a@.drop_first())
        } else {
            None
        },
        None => None,
    }
}

/// Index of the first `session` argument (arguments that are not text
/// count as other words).
pub open spec fn session_index(args: Seq<Option<String>>) -> Option<int> {
    if exists|i: int| 0 <= i < args.len() && is_session(#[trigger] args[i]) {
        Some(
            choose|i: int|
                0 <= i < args.len() && is_session(args[i]) && forall|j: int|
                    0 <= j < i ==> !is_session(#[trigger] args[j]),
        )
    } else {
        None
    }
}

/// `cch session -3` means `cch session -n 3`: the argument right after the
/// first `session`, when it is `-` and digits, is split into `-n` and the
/// digits. Returns where, and the digits.
pub open spec fn shortcut(args: Seq<Option<String>>) -> Option<(int, Seq<char>)> {
    match session_index(args) {
        Some(i) => if i + 1 < args.len() {
            match dash_digits(args[i + 1]) {
                Some(d) => Some((i + 1, d)),
                None => None,
            }
        } else {
            None
        },
        None => None,
    }
}

/// Where the numeric shortcut stands in the arguments, and its digits.
pub fn numeric_shortcut(args: &Vec<Option<String>>) -> (r: Option<(usize, String)>)
    ensures
        match r {
            Some((i, d)) => shortcut(args@) == Some((i as int, d@)),
            None => shortcut(args@) is None,
        },
{
    let mut i: usize = 0;
    while i < args.len()
        invariant
            i <= args@.len(),
            forall|j: int| 0 <= j < i ==> !is_session(#[trigger] args@[j]),
        decreases args@.len() - i,
    {
        let found = match &args[i] {
            Some(a) => crate::text::str_eq(a.as_str(), "session"),
            None => false,
        };
        if found {
            proof {
                assert(is_session(args@[i as int]));
                let c = choose|c: int|
                    0 <= c < args@.len() && is_session(args@[c]) && forall|j: int|
                        0 <= j < c ==> !is_session(#[trigger] args@[j]);
                if c < i {
                } else if c > i {
                    assert(!is_session(args@[i as int]));
                }
            }
            if i + 1 >= args.len() {
                return None;
            }
            return match &args[i + 1] {
                Some(a) => {
                    let v = chars_of(a.as_str());
                    if v.len() > 1 && v[0] == '-' && crate::text::ascii_digits_exec(&v, 1) {
                        assert(v@.subrange(1, v@.len() as int) =~= a@.drop_first());
                        Some((i + 1, string_of_range(&v, 1, v.len())))
                    } else {
                        proof {
                            if v@.len() > 1 && v@[0] == '-' {
                                assert(v@.subrange(1, v@.len() as int) =~= a@.drop_first());
                            }
                        }
                        None
                    }
                },
                None => None,
            };
        }
        i = i + 1;
    }
    None
}

} // verus!
