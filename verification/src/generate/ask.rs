//! What generators ask of the outside, and the rows that the built-in ones make
//! of the replies.
//!
//! A generator takes the replies that it has been given so far, in the order of
//! asking, and stops at the first request without one; running again with one
//! more reply goes further.
use vstd::prelude::*;

use super::shape::{
    alias_rows, aliases_to_suggestions, at_most, branch_lines_to_suggestions, branch_names,
    changed_files_to_suggestions, changed_paths, dependency_rows, described_lines_to_suggestions,
    described_rows, filter_cached_lines, line_rows, lines_to_suggestions, matching, name_rows,
    npm_deps, npm_scripts, script_rows, MAX_RESULTS,
};
use crate::filegen::list::DirEntry;
use crate::ir::Builtin;
use crate::js_host::reply::{ScriptCommand, ScriptCommandView};
use crate::json::document;
use crate::runtime::{copy_rows, rows, Suggestion, SuggestionView};
use crate::sorted::sorted_set;
use crate::text::{lines_of, opt_text, texts};

verus! {

/// A request to the outside.
#[derive(Debug)]
pub enum Ask {
    /// The output of git.
    Git { args: Vec<String>, timeout_ms: u64 },
    /// The lines of git's output, which may have been kept while the repository
    /// has not changed.
    Refs { args: Vec<String>, timeout_ms: u64 },
    /// The bytes of the package description above the working directory.
    Package,
    /// The rows of the command's own completion.
    Cobra,
    /// The command that a hook builds.
    ScriptCommand { hook: String },
    /// The output of a script.
    Script { command: String, args: Vec<String>, timeout_ms: u64 },
    /// The rows that a hook makes of an output.
    PostProcess { hook: String, stdout: String },
    /// The rows that a hook computes for a search term.
    Custom { hook: String, search_term: String, timeout_ms: u64 },
    /// The entries of a directory.
    Directory { path: String },
    /// The template rows that a hook keeps.
    FilterTemplates { hook: String, rows: Vec<Suggestion> },
}

/// A request to the outside.
pub enum AskView {
    Git { args: Seq<Seq<char>>, timeout_ms: u64 },
    Refs { args: Seq<Seq<char>>, timeout_ms: u64 },
    Package,
    Cobra,
    ScriptCommand { hook: Seq<char> },
    Script { command: Seq<char>, args: Seq<Seq<char>>, timeout_ms: u64 },
    PostProcess { hook: Seq<char>, stdout: Seq<char> },
    Custom { hook: Seq<char>, search_term: Seq<char>, timeout_ms: u64 },
    Directory { path: Seq<char> },
    FilterTemplates { hook: Seq<char>, rows: Seq<SuggestionView> },
}

impl View for Ask {
    type V = AskView;

    open spec fn view(&self) -> AskView {
        match self {
            Ask::Git { args, timeout_ms } => AskView::Git {
                args: texts(args@),
                timeout_ms: *timeout_ms,
            },
            Ask::Refs { args, timeout_ms } => AskView::Refs {
                args: texts(args@),
                timeout_ms: *timeout_ms,
            },
            Ask::Package => AskView::Package,
            Ask::Cobra => AskView::Cobra,
            Ask::ScriptCommand { hook } => AskView::ScriptCommand { hook: hook@ },
            Ask::Script { command, args, timeout_ms } => AskView::Script {
                command: command@,
                args: texts(args@),
                timeout_ms: *timeout_ms,
            },
            Ask::PostProcess { hook, stdout } => AskView::PostProcess {
                hook: hook@,
                stdout: stdout@,
            },
            Ask::Custom { hook, search_term, timeout_ms } => AskView::Custom {
                hook: hook@,
                search_term: search_term@,
                timeout_ms: *timeout_ms,
            },
            Ask::Directory { path } => AskView::Directory { path: path@ },
            Ask::FilterTemplates { hook, rows: list } => AskView::FilterTemplates {
                hook: hook@,
                rows: rows(list@),
            },
        }
    }
}

/// A reply from the outside; what it holds is absent where the outside failed.
#[derive(Debug)]
pub enum Reply {
    Output(Option<String>),
    Lines(Option<Vec<String>>),
    Bytes(Option<Vec<u8>>),
    Rows(Option<Vec<Suggestion>>),
    Command(Option<ScriptCommand>),
    Entries(Option<Vec<DirEntry>>),
}

/// A result, or the request that has to be answered first.
pub enum Asked<T> {
    Done(T),
    Asks(AskView),
}

// ---------------------------------------------------------------------------
// Replies
// ---------------------------------------------------------------------------
/// The output in a reply.
pub open spec fn output_in(reply: Reply) -> Option<Seq<char>> {
    match reply {
        Reply::Output(text) => opt_text(text),
        _ => None,
    }
}

/// The lines in a reply.
pub open spec fn lines_in(reply: Reply) -> Option<Seq<Seq<char>>> {
    match reply {
        Reply::Lines(Some(lines)) => Some(texts(lines@)),
        _ => None,
    }
}

/// The bytes in a reply.
pub open spec fn bytes_in(reply: Reply) -> Option<Seq<u8>> {
    match reply {
        Reply::Bytes(Some(bytes)) => Some(bytes@),
        _ => None,
    }
}

/// The rows in a reply.
pub open spec fn rows_of_reply(reply: Reply) -> Option<Seq<SuggestionView>> {
    match reply {
        Reply::Rows(Some(list)) => Some(rows(list@)),
        _ => None,
    }
}

/// The command in a reply.
pub open spec fn command_of_reply(reply: Reply) -> Option<ScriptCommandView> {
    match reply {
        Reply::Command(Some(command)) => Some(command@),
        _ => None,
    }
}

/// The entries in a reply.
pub open spec fn entries_in(reply: Reply) -> Option<Seq<DirEntry>> {
    match reply {
        Reply::Entries(Some(entries)) => Some(entries@),
        _ => None,
    }
}

/// A list, or the empty one.
pub open spec fn or_none<T>(list: Option<Seq<T>>) -> Seq<T> {
    match list {
        Some(list) => list,
        None => Seq::empty(),
    }
}

/// The output in a reply, or the empty text.
pub fn output_or_empty(reply: &Reply) -> (text: String)
    ensures
        text@ == or_none(output_in(*reply)),
{
    match reply {
        Reply::Output(Some(text)) => text.clone(),
        _ => String::new(),
    }
}

/// The rows in a reply, or none.
pub fn rows_or_none(reply: &Reply) -> (list: Vec<Suggestion>)
    ensures
        rows(list@) == or_none(rows_of_reply(*reply)),
{
    match reply {
        Reply::Rows(Some(list)) => copy_rows(list),
        _ => {
            let none: Vec<Suggestion> = Vec::new();
            proof {
                assert(rows(none@) =~= Seq::<SuggestionView>::empty());
            }
            none
        },
    }
}

// ---------------------------------------------------------------------------
// Built-in generators
// ---------------------------------------------------------------------------
/// The arguments with which a built-in generator runs git.
pub open spec fn git_args(builtin: Builtin) -> Seq<Seq<char>> {
    match builtin {
        Builtin::GitRefs => seq![
            "for-each-ref"@,
            "--format=%(refname:short)"@,
            "refs/heads"@,
            "refs/tags"@,
        ],
        Builtin::GitBranches => seq![
            "for-each-ref"@,
            "--format=%(refname:short)%09%(symref)"@,
            "refs/heads"@,
            "refs/remotes"@,
        ],
        Builtin::GitTags => seq!["for-each-ref"@, "--format=%(refname:short)"@, "refs/tags"@],
        Builtin::GitCommits => seq![
            "--no-optional-locks"@,
            "log"@,
            "--all"@,
            "--pretty=format:%h%x09%s"@,
            "-n"@,
            "100"@,
        ],
        Builtin::GitRemotes => seq!["remote"@],
        Builtin::GitChangedFiles => seq![
            "--no-optional-locks"@,
            "status"@,
            "--short"@,
            "--untracked-files=all"@,
        ],
        Builtin::GitStashes => seq![
            "--no-optional-locks"@,
            "stash"@,
            "list"@,
            "--pretty=format:%gd%x09%s"@,
        ],
        Builtin::GitAliases => seq![
            "--no-optional-locks"@,
            "config"@,
            "--get-regexp"@,
            "^alias."@,
        ],
        _ => Seq::empty(),
    }
}

/// Computes [`git_args`].
pub fn git_arguments(builtin: Builtin) -> (args: Vec<String>)
    ensures
        texts(args@) == git_args(builtin),
{
    let mut args: Vec<String> = Vec::new();
    match builtin {
        Builtin::GitRefs => {
            args.push("for-each-ref".to_owned());
            args.push("--format=%(refname:short)".to_owned());
            args.push("refs/heads".to_owned());
            args.push("refs/tags".to_owned());
        },
        Builtin::GitBranches => {
            args.push("for-each-ref".to_owned());
            args.push("--format=%(refname:short)%09%(symref)".to_owned());
            args.push("refs/heads".to_owned());
            args.push("refs/remotes".to_owned());
        },
        Builtin::GitTags => {
            args.push("for-each-ref".to_owned());
            args.push("--format=%(refname:short)".to_owned());
            args.push("refs/tags".to_owned());
        },
        Builtin::GitCommits => {
            args.push("--no-optional-locks".to_owned());
            args.push("log".to_owned());
            args.push("--all".to_owned());
            args.push("--pretty=format:%h%x09%s".to_owned());
            args.push("-n".to_owned());
            args.push("100".to_owned());
        },
        Builtin::GitRemotes => {
            args.push("remote".to_owned());
        },
        Builtin::GitChangedFiles => {
            args.push("--no-optional-locks".to_owned());
            args.push("status".to_owned());
            args.push("--short".to_owned());
            args.push("--untracked-files=all".to_owned());
        },
        Builtin::GitStashes => {
            args.push("--no-optional-locks".to_owned());
            args.push("stash".to_owned());
            args.push("list".to_owned());
            args.push("--pretty=format:%gd%x09%s".to_owned());
        },
        Builtin::GitAliases => {
            args.push("--no-optional-locks".to_owned());
            args.push("config".to_owned());
            args.push("--get-regexp".to_owned());
            args.push("^alias.".to_owned());
        },
        _ => {},
    }
    proof {
        assert(texts(args@) =~= git_args(builtin));
    }
    args
}

/// What a built-in generator asks.
pub open spec fn builtin_ask(builtin: Builtin, timeout_ms: u64) -> AskView {
    match builtin {
        Builtin::GitRefs => AskView::Refs { args: git_args(builtin), timeout_ms },
        Builtin::NpmScripts => AskView::Package,
        Builtin::NpmDeps => AskView::Package,
        Builtin::Cobra => AskView::Cobra,
        _ => AskView::Git { args: git_args(builtin), timeout_ms },
    }
}

/// Computes [`builtin_ask`].
pub fn ask_for_builtin(builtin: Builtin, timeout_ms: u64) -> (ask: Ask)
    ensures
        ask@ == builtin_ask(builtin, timeout_ms),
{
    match builtin {
        Builtin::GitRefs => Ask::Refs { args: git_arguments(builtin), timeout_ms },
        Builtin::NpmScripts => Ask::Package,
        Builtin::NpmDeps => Ask::Package,
        Builtin::Cobra => Ask::Cobra,
        _ => Ask::Git { args: git_arguments(builtin), timeout_ms },
    }
}

/// The rows that a built-in generator makes of an output of git.
pub open spec fn git_rows(builtin: Builtin, stdout: Seq<char>, query: Seq<char>, fuzzy: bool) -> Seq<
    SuggestionView,
> {
    match builtin {
        Builtin::GitBranches => name_rows(
            at_most(
                sorted_set(branch_names(lines_of(stdout), query, fuzzy)),
                MAX_RESULTS as nat,
            ),
            Seq::empty(),
            "branch"@,
            false,
        ),
        Builtin::GitTags => line_rows(stdout, query, fuzzy, "tag"@),
        Builtin::GitCommits => at_most(
            described_rows(lines_of(stdout), query, fuzzy, "commit"@),
            MAX_RESULTS as nat,
        ),
        Builtin::GitRemotes => line_rows(stdout, query, fuzzy, "remote"@),
        Builtin::GitChangedFiles => name_rows(
            at_most(
                sorted_set(changed_paths(lines_of(stdout), query, fuzzy)),
                MAX_RESULTS as nat,
            ),
            "Changed file"@,
            "file"@,
            false,
        ),
        Builtin::GitStashes => at_most(
            described_rows(lines_of(stdout), query, fuzzy, "stash"@),
            MAX_RESULTS as nat,
        ),
        Builtin::GitAliases => at_most(
            alias_rows(lines_of(stdout), query, fuzzy),
            MAX_RESULTS as nat,
        ),
        _ => Seq::empty(),
    }
}

/// The rows that a built-in generator makes of a reply.
pub open spec fn builtin_rows(builtin: Builtin, reply: Reply, query: Seq<char>, fuzzy: bool) -> Seq<
    SuggestionView,
> {
    match builtin {
        Builtin::GitRefs => match lines_in(reply) {
            Some(lines) => name_rows(
                at_most(matching(lines, query, fuzzy), MAX_RESULTS as nat),
                Seq::empty(),
                "arg"@,
                false,
            ),
            None => Seq::empty(),
        },
        Builtin::NpmScripts => match bytes_in(reply) {
            Some(bytes) => match document(bytes) {
                Some(json) => script_rows(json, query, fuzzy),
                None => Seq::empty(),
            },
            None => Seq::empty(),
        },
        Builtin::NpmDeps => match bytes_in(reply) {
            Some(bytes) => match document(bytes) {
                Some(json) => dependency_rows(json, query, fuzzy),
                None => Seq::empty(),
            },
            None => Seq::empty(),
        },
        Builtin::Cobra => or_none(rows_of_reply(reply)),
        _ => match output_in(reply) {
            Some(stdout) => git_rows(builtin, stdout, query, fuzzy),
            None => Seq::empty(),
        },
    }
}

/// Computes [`git_rows`].
pub fn git_suggestions(builtin: Builtin, stdout: &str, query: &str, fuzzy: bool) -> (out: Vec<
    Suggestion,
>)
    ensures
        rows(out@) == git_rows(builtin, stdout@, query@, fuzzy),
{
    match builtin {
        Builtin::GitBranches => branch_lines_to_suggestions(stdout, query, fuzzy),
        Builtin::GitTags => lines_to_suggestions(stdout, query, fuzzy, "tag"),
        Builtin::GitCommits => described_lines_to_suggestions(stdout, query, fuzzy, "commit"),
        Builtin::GitRemotes => lines_to_suggestions(stdout, query, fuzzy, "remote"),
        Builtin::GitChangedFiles => changed_files_to_suggestions(stdout, query, fuzzy),
        Builtin::GitStashes => described_lines_to_suggestions(stdout, query, fuzzy, "stash"),
        Builtin::GitAliases => aliases_to_suggestions(stdout, query, fuzzy),
        _ => {
            let none: Vec<Suggestion> = Vec::new();
            proof {
                assert(rows(none@) =~= Seq::<SuggestionView>::empty());
            }
            none
        },
    }
}

/// Computes [`builtin_rows`].
pub fn builtin_suggestions(builtin: Builtin, reply: &Reply, query: &str, fuzzy: bool) -> (out: Vec<
    Suggestion,
>)
    ensures
        rows(out@) == builtin_rows(builtin, *reply, query@, fuzzy),
{
    let none: Vec<Suggestion> = Vec::new();
    proof {
        assert(rows(none@) =~= Seq::<SuggestionView>::empty());
    }
    match builtin {
        Builtin::GitRefs => match reply {
            Reply::Lines(Some(lines)) => filter_cached_lines(lines, query, fuzzy),
            _ => none,
        },
        Builtin::NpmScripts => match reply {
            Reply::Bytes(Some(bytes)) => npm_scripts(Some(bytes.as_slice()), query, fuzzy),
            _ => none,
        },
        Builtin::NpmDeps => match reply {
            Reply::Bytes(Some(bytes)) => npm_deps(Some(bytes.as_slice()), query, fuzzy),
            _ => none,
        },
        Builtin::Cobra => rows_or_none(reply),
        _ => match reply {
            Reply::Output(Some(stdout)) => git_suggestions(builtin, stdout, query, fuzzy),
            _ => none,
        },
    }
}

} // verus!
