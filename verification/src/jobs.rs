//! Configured jobs: where they come from, and the warnings that a job's command and
//! arguments deserve before it is scheduled.

use crate::text::{chars_of, is_white_space, is_whitespace_char, lemma_trimmed_changes, trimmed};
use vstd::prelude::*;

verus! {

/// Where the jobs to run come from, given the command-line arguments.
pub enum JobSource {
    /// One job given on the command line: a schedule expression, a command and its
    /// arguments.
    Inline { schedule: String, command: String, args: Vec<String> },
    /// The configuration file at this path.
    ConfigFile(String),
    /// The default configuration file.
    DefaultConfig,
}

/// With two positional arguments or more, the first is a schedule and the second a
/// command, followed by its arguments; with one, it is a configuration path; with
/// none, the default configuration is read.
pub fn job_source(arg1: Option<String>, arg2: Option<String>, rest: Vec<String>) -> (r: JobSource)
    ensures
        match (arg1, arg2) {
            (Some(a1), Some(a2)) => r == (JobSource::Inline { schedule: a1, command: a2, args: rest }),
            (Some(a1), None) => r == JobSource::ConfigFile(a1),
            (None, _) => r == JobSource::DefaultConfig,
        },
{
    match arg1 {
        Some(a1) => match arg2 {
            Some(a2) => JobSource::Inline { schedule: a1, command: a2, args: rest },
            None => JobSource::ConfigFile(a1),
        },
        None => JobSource::DefaultConfig,
    }
}

/// A reason to doubt that a job will run as intended.
#[derive(Clone, Copy, Debug, PartialEq, Eq, Structural)]
pub enum JobWarning {
    /// The command has leading or trailing white space.
    CommandWhitespace,
    /// The command was not found on the search path.
    CommandNotFound,
    /// Argument number `n` (counting from 1) has leading or trailing white space.
    ArgWhitespace(usize),
    /// Argument number `n` (counting from 1) looks like several arguments in one string.
    ArgLooksCombined(usize),
}

/// Trimming white space from both ends would change `s`.
pub open spec fn has_outer_space(s: Seq<char>) -> bool {
    s.len() > 0 && (is_white_space(s[0]) || is_white_space(s.last()))
}

/// `s` starts with `-` and holds a space, but no `=` and no `{`.
pub open spec fn looks_combined(s: Seq<char>) -> bool {
    &&& s.len() > 0
    &&& s[0] == '-'
    &&& s.contains(' ')
    &&& !s.contains('=')
    &&& !s.contains('{')
}

/// The warnings for argument number `n`.
pub open spec fn arg_warnings(a: Seq<char>, n: int) -> Seq<JobWarning> {
    (if has_outer_space(a) {
        seq![JobWarning::ArgWhitespace(n as usize)]
    } else {
        seq![]
    }) + (if looks_combined(a) {
        seq![JobWarning::ArgLooksCombined(n as usize)]
    } else {
        seq![]
    })
}

/// The warnings for all arguments, in order.
pub open spec fn args_warnings(args: Seq<Seq<char>>) -> Seq<JobWarning>
    decreases args.len(),
{
    if args.len() == 0 {
        seq![]
    } else {
        args_warnings(args.drop_last()) + arg_warnings(args.last(), args.len() as int)
    }
}

pub open spec fn string_views(v: Seq<String>) -> Seq<Seq<char>> {
    v.map_values(|s: String| s@)
}

/// The warnings for a job: about the command first (white space, or else not found),
/// then about each argument.
pub open spec fn job_warnings_spec(
    command: Seq<char>,
    args: Seq<Seq<char>>,
    command_found: bool,
) -> Seq<JobWarning> {
    (if has_outer_space(command) {
        seq![JobWarning::CommandWhitespace]
    } else if !command_found {
        seq![JobWarning::CommandNotFound]
    } else {
        seq![]
    }) + args_warnings(args)
}

/// Every warning about the arguments names an argument.
proof fn lemma_args_warnings_kinds(args: Seq<Seq<char>>)
    ensures
        forall|i: int|
            0 <= i < args_warnings(args).len() ==> (#[trigger] args_warnings(args)[i] is ArgWhitespace
                || args_warnings(args)[i] is ArgLooksCombined),
    decreases args.len(),
{
    if args.len() > 0 {
        lemma_args_warnings_kinds(args.drop_last());
        let a = args_warnings(args.drop_last());
        let b = arg_warnings(args.last(), args.len() as int);
        assert forall|i: int| 0 <= i < args_warnings(args).len() implies (
        #[trigger] args_warnings(args)[i] is ArgWhitespace || args_warnings(args)[i] is ArgLooksCombined) by {
            if i < a.len() {
                assert(args_warnings(args)[i] == a[i]);
            } else {
                assert(args_warnings(args)[i] == b[i - a.len()]);
            }
        }
    }
}

/// The first warning of a job is about its command: the command white-space warning
/// exactly when trimming white space from both ends would change the command, and
/// otherwise, when the command was not found, the not-found warning.
pub proof fn lemma_command_warning_first(command: Seq<char>, args: Seq<Seq<char>>, found: bool)
    ensures
        ({
            let w = job_warnings_spec(command, args, found);
            &&& (w.len() > 0 && w[0] == JobWarning::CommandWhitespace) <==> trimmed(command)
                != command
            &&& trimmed(command) == command && !found ==> w.len() > 0 && w[0]
                == JobWarning::CommandNotFound
            &&& w.contains(JobWarning::CommandWhitespace) <==> trimmed(command) != command
            &&& w.contains(JobWarning::CommandNotFound) <==> (trimmed(command) == command
                && !found)
        }),
{
    lemma_trimmed_changes(command);
    lemma_args_warnings_kinds(args);
    let w = job_warnings_spec(command, args, found);
    let tail = args_warnings(args);
    if !has_outer_space(command) && found && tail.len() > 0 {
        assert(w[0] == tail[0]);
    }
    let head = if has_outer_space(command) {
        seq![JobWarning::CommandWhitespace]
    } else if !found {
        seq![JobWarning::CommandNotFound]
    } else {
        seq![]
    };
    assert(w == head + tail);
    assert forall|x: JobWarning| x is CommandWhitespace || x is CommandNotFound implies (w.contains(
        x,
    ) <==> head.contains(x)) by {
        if w.contains(x) {
            let i = choose|i: int| 0 <= i < w.len() && w[i] == x;
            if i < head.len() {
                assert(head[i] == x);
            } else {
                assert(tail[i - head.len()] == x);
            }
        }
        if head.contains(x) {
            let i = choose|i: int| 0 <= i < head.len() && head[i] == x;
            assert(w[i] == x);
        }
    }
    assert(JobWarning::CommandWhitespace is CommandWhitespace);
    assert(JobWarning::CommandNotFound is CommandNotFound);
}

proof fn lemma_args_warnings_count(args: Seq<Seq<char>>, k: usize)
    requires
        args.len() < usize::MAX,
    ensures
        args_warnings(args).contains(JobWarning::ArgWhitespace(k)) <==> (1 <= k <= args.len()
            && has_outer_space(args[k - 1])),
        args_warnings(args).contains(JobWarning::ArgLooksCombined(k)) <==> (1 <= k <= args.len()
            && looks_combined(args[k - 1])),
    decreases args.len(),
{
    if args.len() > 0 {
        let front = args.drop_last();
        lemma_args_warnings_count(front, k);
        let a = args_warnings(front);
        let n = args.len() as int;
        let b = arg_warnings(args.last(), n);
        let all = args_warnings(args);
        assert(all == a + b);
        if 1 <= k < n {
            assert(args[k - 1] == front[k - 1]);
        }
        assert forall|x: JobWarning| all.contains(x) <==> (a.contains(x) || b.contains(x)) by {
            if all.contains(x) {
                let i = choose|i: int| 0 <= i < all.len() && all[i] == x;
                if i >= a.len() {
                    assert(b[i - a.len()] == x);
                }
            }
            if a.contains(x) {
                let i = choose|i: int| 0 <= i < a.len() && a[i] == x;
                assert(all[i] == x);
            }
            if b.contains(x) {
                let i = choose|i: int| 0 <= i < b.len() && b[i] == x;
                assert(all[a.len() + i] == x);
            }
        }
        assert(n as usize == n);
        assert forall|i: int| 0 <= i < b.len() implies #[trigger] b[i] == JobWarning::ArgWhitespace(
            n as usize,
        ) || b[i] == JobWarning::ArgLooksCombined(n as usize) by {}
        if k == n {
            if has_outer_space(args.last()) {
                assert(b[0] == JobWarning::ArgWhitespace(k));
            }
            if looks_combined(args.last()) {
                assert(b[b.len() - 1] == JobWarning::ArgLooksCombined(k));
            }
        }
    }
}

/// Argument number `k` (counting from 1) gets the white-space warning exactly when
/// trimming white space from both its ends would change it, and the combined-arguments
/// warning exactly when it starts with `-` and holds a space but no `=` and no `{`.
pub proof fn lemma_argument_warnings(
    command: Seq<char>,
    args: Seq<Seq<char>>,
    found: bool,
    k: usize,
)
    requires
        1 <= k <= args.len(),
        args.len() < usize::MAX,
    ensures
        job_warnings_spec(command, args, found).contains(JobWarning::ArgWhitespace(k)) <==> trimmed(
            args[k - 1],
        ) != args[k - 1],
        job_warnings_spec(command, args, found).contains(JobWarning::ArgLooksCombined(k)) <==> (
        args[k - 1].len() > 0 && args[k - 1][0] == '-' && args[k - 1].contains(' ')
            && !args[k - 1].contains('=') && !args[k - 1].contains('{')),
{
    lemma_trimmed_changes(args[k - 1]);
    lemma_args_warnings_count(args, k);
    let head = if has_outer_space(command) {
        seq![JobWarning::CommandWhitespace]
    } else if !found {
        seq![JobWarning::CommandNotFound]
    } else {
        seq![]
    };
    let tail = args_warnings(args);
    let all = job_warnings_spec(command, args, found);
    assert(all == head + tail);
    assert forall|x: JobWarning| x is ArgWhitespace || x is ArgLooksCombined implies (
    all.contains(x) <==> tail.contains(x)) by {
        if all.contains(x) {
            let i = choose|i: int| 0 <= i < all.len() && all[i] == x;
            if i < head.len() {
                assert(head[i] == x);
            } else {
                assert(tail[i - head.len()] == x);
            }
        }
        if tail.contains(x) {
            let i = choose|i: int| 0 <= i < tail.len() && tail[i] == x;
            assert(all[head.len() + i] == x);
        }
    }
    assert(JobWarning::ArgWhitespace(k) is ArgWhitespace);
    assert(JobWarning::ArgLooksCombined(k) is ArgLooksCombined);
}

fn has_outer_space_exec(s: &Vec<char>) -> (r: bool)
    ensures
        r == has_outer_space(s@),
{
    s.len() > 0 && (is_whitespace_char(s[0]) || is_whitespace_char(s[s.len() - 1]))
}

fn contains_char(s: &Vec<char>, c: char) -> (r: bool)
    ensures
        r == s@.contains(c),
{
    let mut i: usize = 0;
    while i < s.len()
        invariant
            i <= s.len(),
            forall|k: int| 0 <= k < i ==> s@[k] != c,
        decreases s.len() - i,
    {
        if s[i] == c {
            return true;
        }
        i = i + 1;
    }
    false
}

fn looks_combined_exec(s: &Vec<char>) -> (r: bool)
    ensures
        r == looks_combined(s@),
{
    s.len() > 0 && s[0] == '-' && contains_char(s, ' ') && !contains_char(s, '=')
        && !contains_char(s, '{')
}

/// The warnings that a job deserves; `command_found` tells whether the command was
/// found on the search path.
pub fn job_warnings(command: &str, args: &Vec<String>, command_found: bool) -> (r: Vec<JobWarning>)
    requires
        args.len() < usize::MAX,
    ensures
        r@ == job_warnings_spec(command@, string_views(args@), command_found),
{
    let mut r: Vec<JobWarning> = Vec::new();
    let cmd = chars_of(command);
    if has_outer_space_exec(&cmd) {
        r.push(JobWarning::CommandWhitespace);
    } else if !command_found {
        r.push(JobWarning::CommandNotFound);
    }
    let ghost head = r@;
    let mut i: usize = 0;
    while i < args.len()
        invariant
            i <= args.len(),
            args.len() < usize::MAX,
            r@ == head + args_warnings(string_views(args@).take(i as int)),
        decreases args.len() - i,
    {
        let a = chars_of(args[i].as_str());
        let n = i + 1;
        if has_outer_space_exec(&a) {
            r.push(JobWarning::ArgWhitespace(n));
        }
        if looks_combined_exec(&a) {
            r.push(JobWarning::ArgLooksCombined(n));
        }
        i = i + 1;
        assert(string_views(args@).take(i as int).drop_last() =~= string_views(args@).take(
            i - 1,
        ));
        assert(r@ =~= head + args_warnings(string_views(args@).take(i as int)));
    }
    assert(string_views(args@).take(args.len() as int) =~= string_views(args@));
    r
}

} // verus!
