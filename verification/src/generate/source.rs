//! One generator of an argument: built-in rows, scripts and hooks, and
//! templates, in this order.
use vstd::prelude::*;

use super::ask::{
    ask_for_builtin, builtin_ask, builtin_rows, builtin_suggestions, command_of_reply, entries_in,
    or_none, output_in, output_or_empty, rows_of_reply, rows_or_none, Ask, AskView, Asked, Reply,
};
use super::seeds::{filter_generated, shown_rows};
use super::shape::{
    all_split, at_most, filter_split, history_template_suggestions, matching, matching_or_all,
    name_rows, output_parts, MAX_RESULTS,
};
use super::trigger::{
    effective_script_timeout_ms, limit_as_signed, script_timeout, signed_limit,
};
use crate::filegen::expand::Places;
use crate::filegen::filter::{FilterView, PathFilter};
use crate::filegen::list::{complete_path_filtered, directory_to_list, listed_parts, rows_for_path};
use crate::ir::{ArgSpec, Builtin, GeneratorSpec, Template};
use crate::js_host::hook::{clean_output, cleaned};
use crate::runtime::{copy_rows, extend_rows, rows, HookTerms, Suggestion, SuggestionView};
use crate::text::{as_text, copy_texts, opt_text, same, texts};

verus! {

/// What the generators of an argument are given.
pub struct GenerateInput<'a> {
    /// The words typed so far.
    pub tokens: &'a [String],
    pub search_term: &'a str,
    pub cwd: &'a str,
    pub fuzzy: bool,
    /// What earlier commands put in the same slot, most recent first.
    pub history_values: &'a [String],
    /// The time limit that the settings give, in milliseconds.
    pub configured_timeout_ms: i64,
    /// The directory of hooks that run commands; absent where no hooks can run.
    pub host_cwd: Option<&'a str>,
    /// The query terms that hooks computed.
    pub hooks: Option<&'a HookTerms>,
    /// The variables of the shell.
    pub environment: &'a [(String, String)],
    /// What paths can refer to.
    pub places: &'a Places,
    /// What the trigger hooks answered, by generator.
    pub triggers: &'a [Option<bool>],
    /// The replies so far.
    pub replies: &'a [Reply],
}

/// Rows, and how many replies they took.
pub type Rows = (Seq<SuggestionView>, int);

/// Whether a result is the stated one.
pub open spec fn is_answer(
    out: Result<(Vec<Suggestion>, usize), Ask>,
    stated: Asked<Rows>,
    limit: nat,
) -> bool {
    match out {
        Ok((list, at)) => stated == Asked::Done((rows(list@), at as int)) && at <= limit,
        Err(ask) => stated == Asked::<Rows>::Asks(ask@),
    }
}

/// No rows.
fn no_rows() -> (none: Vec<Suggestion>)
    ensures
        rows(none@) == Seq::<SuggestionView>::empty(),
{
    let none: Vec<Suggestion> = Vec::new();
    proof {
        assert(rows(none@) =~= Seq::<SuggestionView>::empty());
    }
    none
}

// ---------------------------------------------------------------------------
// Built-in generators
// ---------------------------------------------------------------------------
/// The built-in generators of a generator. An argument without generators of
/// its own can have several.
pub open spec fn builtins_of(arg: ArgSpec, generator: GeneratorSpec) -> Seq<Builtin> {
    if arg.generators@.len() == 0 {
        match generator.builtin {
            Some(builtin) => arg.builtins@.push(builtin),
            None => match arg.builtin {
                Some(builtin) => arg.builtins@.push(builtin),
                None => arg.builtins@,
            },
        }
    } else {
        match generator.builtin {
            Some(builtin) => seq![builtin],
            None => Seq::empty(),
        }
    }
}

fn collect_builtins(arg: &ArgSpec, generator: &GeneratorSpec) -> (list: Vec<Builtin>)
    ensures
        list@ == builtins_of(*arg, *generator),
{
    let mut list: Vec<Builtin> = Vec::new();
    if arg.generators.len() == 0 {
        let mut i: usize = 0;
        while i < arg.builtins.len()
            invariant
                i <= arg.builtins@.len(),
                list@ == arg.builtins@.take(i as int),
            decreases arg.builtins@.len() - i,
        {
            list.push(arg.builtins[i]);
            i += 1;
        }
        proof {
            assert(arg.builtins@.take(arg.builtins@.len() as int) =~= arg.builtins@);
        }
        match generator.builtin {
            Some(builtin) => {
                list.push(builtin);
            },
            None => {
                if let Some(builtin) = arg.builtin {
                    list.push(builtin);
                }
            },
        }
    } else if let Some(builtin) = generator.builtin {
        list.push(builtin);
        proof {
            assert(list@ =~= seq![builtin]);
        }
    }
    list
}

/// The rows of the first `n` built-in generators, each run once.
pub open spec fn builtin_part(
    replies: Seq<Reply>,
    list: Seq<Builtin>,
    query: Seq<char>,
    fuzzy: bool,
    timeout_ms: u64,
    at: int,
    n: int,
) -> Asked<Rows>
    decreases n,
{
    if n <= 0 {
        Asked::Done((Seq::empty(), at))
    } else {
        match builtin_part(replies, list, query, fuzzy, timeout_ms, at, n - 1) {
            Asked::Asks(ask) => Asked::Asks(ask),
            Asked::Done((had, next)) => {
                let builtin = list[n - 1];
                if list.take(n - 1).contains(builtin) {
                    Asked::Done((had, next))
                } else if next < replies.len() {
                    Asked::Done(
                        (had + builtin_rows(builtin, replies[next], query, fuzzy), next + 1),
                    )
                } else {
                    Asked::Asks(builtin_ask(builtin, timeout_ms))
                }
            },
        }
    }
}

proof fn lemma_builtins_stop(
    replies: Seq<Reply>,
    list: Seq<Builtin>,
    query: Seq<char>,
    fuzzy: bool,
    timeout_ms: u64,
    at: int,
    m: int,
    n: int,
)
    requires
        m <= n,
        builtin_part(replies, list, query, fuzzy, timeout_ms, at, m) is Asks,
    ensures
        builtin_part(replies, list, query, fuzzy, timeout_ms, at, n) == builtin_part(
            replies,
            list,
            query,
            fuzzy,
            timeout_ms,
            at,
            m,
        ),
    decreases n - m,
{
    if m < n {
        lemma_builtins_stop(replies, list, query, fuzzy, timeout_ms, at, m, n - 1);
    }
}

fn run_builtins(
    replies: &[Reply],
    list: &[Builtin],
    query: &str,
    fuzzy: bool,
    timeout_ms: u64,
    at: usize,
) -> (out: Result<(Vec<Suggestion>, usize), Ask>)
    requires
        at <= replies@.len(),
    ensures
        is_answer(
            out,
            builtin_part(
                replies@,
                list@,
                query@,
                fuzzy,
                timeout_ms,
                at as int,
                list@.len() as int,
            ),
            replies@.len(),
        ),
{
    let mut out = no_rows();
    let mut next: usize = at;
    let mut n: usize = 0;
    while n < list.len()
        invariant
            n <= list@.len(),
            next <= replies@.len(),
            builtin_part(replies@, list@, query@, fuzzy, timeout_ms, at as int, n as int)
                == Asked::Done((rows(out@), next as int)),
        decreases list@.len() - n,
    {
        let builtin = list[n];
        let mut known = false;
        let mut i: usize = 0;
        while i < n && !known
            invariant
                i <= n < list@.len(),
                known == exists|k: int| 0 <= k < i && #[trigger] list@[k] == builtin,
            decreases n - i,
        {
            if list[i] == builtin {
                known = true;
            }
            i += 1;
        }
        proof {
            let earlier = list@.take(n as int);
            if known {
                let k = choose|k: int| 0 <= k < i && #[trigger] list@[k] == builtin;
                assert(earlier[k] == builtin);
                assert(earlier.contains(builtin));
            } else if earlier.contains(builtin) {
                let k = earlier.index_of(builtin);
                assert(list@[k] == builtin);
            }
        }
        if !known {
            if next < replies.len() {
                let more = builtin_suggestions(builtin, &replies[next], query, fuzzy);
                extend_rows(&mut out, more);
                next += 1;
            } else {
                proof {
                    lemma_builtins_stop(
                        replies@,
                        list@,
                        query@,
                        fuzzy,
                        timeout_ms,
                        at as int,
                        n + 1,
                        list@.len() as int,
                    );
                }
                return Err(ask_for_builtin(builtin, timeout_ms));
            }
        }
        n += 1;
    }
    Ok((out, next))
}

// ---------------------------------------------------------------------------
// Scripts and hooks
// ---------------------------------------------------------------------------
/// The first of two values that is there.
pub open spec fn or_other<T>(first: Option<T>, second: Option<T>) -> Option<T> {
    match first {
        Some(value) => Some(value),
        None => second,
    }
}

/// A command line with its time limit.
pub struct CommandLine {
    pub command: Seq<char>,
    pub args: Seq<Seq<char>>,
    pub timeout_ms: int,
}

/// The command of a script: what a hook builds, else the fixed one. Absent
/// where there is none.
pub open spec fn script_line(
    replies: Seq<Reply>,
    generator: GeneratorSpec,
    own_timeout: Option<i64>,
    timeout_ms: u64,
    at: int,
) -> Asked<(Option<CommandLine>, int)> {
    match generator.js_script {
        Some(hook) => if at < replies.len() {
            match command_of_reply(replies[at]) {
                Some(command) => Asked::Done(
                    (
                        Some(
                            CommandLine {
                                command: command.command,
                                args: command.args,
                                timeout_ms: script_timeout(
                                    signed_limit(timeout_ms),
                                    own_timeout,
                                    command.timeout_ms,
                                ),
                            },
                        ),
                        at + 1,
                    ),
                ),
                None => Asked::Done((None, at + 1)),
            }
        } else {
            Asked::Asks(AskView::ScriptCommand { hook: hook@ })
        },
        None => {
            let script = texts(generator.script@);
            if script.len() == 0 {
                Asked::Done((None, at))
            } else {
                Asked::Done(
                    (
                        Some(
                            CommandLine {
                                command: script[0],
                                args: script.skip(1),
                                timeout_ms: timeout_ms as int,
                            },
                        ),
                        at,
                    ),
                )
            }
        },
    }
}

/// The rows of a script's output: its parts where a separator is given, else
/// what a hook makes of it.
pub open spec fn script_output_part(
    replies: Seq<Reply>,
    generator: GeneratorSpec,
    stdout: Seq<char>,
    at: int,
) -> Asked<Rows> {
    match generator.split_on {
        Some(separator) => Asked::Done(
            (
                name_rows(output_parts(cleaned(stdout), separator@), Seq::empty(), "arg"@, true),
                at,
            ),
        ),
        None => match generator.js_post_process {
            Some(hook) => if at < replies.len() {
                Asked::Done((or_none(rows_of_reply(replies[at])), at + 1))
            } else {
                Asked::Asks(AskView::PostProcess { hook: hook@, stdout: cleaned(stdout) })
            },
            None => Asked::Done((Seq::empty(), at)),
        },
    }
}

/// The rows of a script where hooks can run, before they are matched.
pub open spec fn script_part(
    replies: Seq<Reply>,
    generator: GeneratorSpec,
    own_timeout: Option<i64>,
    timeout_ms: u64,
    at: int,
) -> Asked<Rows> {
    match script_line(replies, generator, own_timeout, timeout_ms, at) {
        Asked::Asks(ask) => Asked::Asks(ask),
        Asked::Done((None, next)) => Asked::Done((Seq::empty(), next)),
        Asked::Done((Some(line), next)) => if line.command.len() == 0 {
            Asked::Done((Seq::empty(), next))
        } else if next < replies.len() {
            script_output_part(replies, generator, or_none(output_in(replies[next])), next + 1)
        } else {
            Asked::Asks(
                AskView::Script {
                    command: line.command,
                    args: line.args,
                    timeout_ms: line.timeout_ms as u64,
                },
            )
        },
    }
}

fn copy_tail(list: &[String]) -> (out: Vec<String>)
    requires
        list@.len() > 0,
    ensures
        texts(out@) == texts(list@).skip(1),
{
    let ghost all = texts(list@);
    let mut out: Vec<String> = Vec::new();
    let mut i: usize = 1;
    proof {
        assert(texts(out@) =~= all.subrange(1, 1));
    }
    while i < list.len()
        invariant
            1 <= i <= list@.len(),
            all == texts(list@),
            texts(out@) == all.subrange(1, i as int),
        decreases list@.len() - i,
    {
        let ghost had = out@;
        out.push(list[i].clone());
        i += 1;
        proof {
            assert(texts(out@) =~= texts(had).push(all[i - 1]));
            assert(all.subrange(1, i as int) =~= all.subrange(1, i - 1).push(all[i - 1]));
        }
    }
    proof {
        assert(all.subrange(1, all.len() as int) =~= all.skip(1));
    }
    out
}

/// Computes [`script_output_part`].
fn shape_script_output(
    replies: &[Reply],
    generator: &GeneratorSpec,
    stdout: &str,
    at: usize,
) -> (out: Result<(Vec<Suggestion>, usize), Ask>)
    requires
        at <= replies@.len(),
    ensures
        is_answer(
            out,
            script_output_part(replies@, *generator, stdout@, at as int),
            replies@.len(),
        ),
{
    let clean = clean_output(stdout);
    match &generator.split_on {
        Some(separator) => Ok((all_split(&clean, separator), at)),
        None => match &generator.js_post_process {
            Some(hook) => if at < replies.len() {
                Ok((rows_or_none(&replies[at]), at + 1))
            } else {
                Err(Ask::PostProcess { hook: hook.clone(), stdout: clean })
            },
            None => Ok((no_rows(), at)),
        },
    }
}

/// Computes [`script_part`].
fn run_script_or_post_process(
    replies: &[Reply],
    generator: &GeneratorSpec,
    own_timeout: Option<i64>,
    timeout_ms: u64,
    at: usize,
) -> (out: Result<(Vec<Suggestion>, usize), Ask>)
    requires
        at <= replies@.len(),
    ensures
        is_answer(
            out,
            script_part(replies@, *generator, own_timeout, timeout_ms, at as int),
            replies@.len(),
        ),
{
    let mut next: usize = at;
    let mut limit: u64 = timeout_ms;
    let command: String;
    let args: Vec<String>;
    match &generator.js_script {
        Some(hook) => {
            if at >= replies.len() {
                return Err(Ask::ScriptCommand { hook: hook.clone() });
            }
            next = at + 1;
            match &replies[at] {
                Reply::Command(Some(script)) => {
                    limit = effective_script_timeout_ms(
                        limit_as_signed(timeout_ms),
                        own_timeout,
                        script.timeout_ms,
                    );
                    command = script.command.clone();
                    args = copy_texts(&script.args);
                },
                _ => {
                    return Ok((no_rows(), next));
                },
            }
        },
        None => {
            if generator.script.len() == 0 {
                return Ok((no_rows(), at));
            }
            command = generator.script[0].clone();
            args = copy_tail(&generator.script);
        },
    }
    if command.as_str().is_empty() {
        return Ok((no_rows(), next));
    }
    if next >= replies.len() {
        return Err(Ask::Script { command, args, timeout_ms: limit });
    }
    let stdout = output_or_empty(&replies[next]);
    shape_script_output(replies, generator, &stdout, next + 1)
}

/// The rows of a hook that computes them, before they are matched. The hook is
/// handed the generator's own query as its search term.
pub open spec fn custom_part(
    replies: Seq<Reply>,
    generator: GeneratorSpec,
    query: Seq<char>,
    timeout_ms: u64,
    at: int,
) -> Asked<Rows> {
    match generator.js_custom {
        Some(hook) => if at < replies.len() {
            Asked::Done((or_none(rows_of_reply(replies[at])), at + 1))
        } else {
            Asked::Asks(AskView::Custom { hook: hook@, search_term: query, timeout_ms })
        },
        None => Asked::Done((Seq::empty(), at)),
    }
}

/// The rows of scripts and hooks where hooks can run. Without a directory
/// nothing runs.
pub open spec fn hosted_part(
    replies: Seq<Reply>,
    generator: GeneratorSpec,
    own_timeout: Option<i64>,
    cwd: Seq<char>,
    query: Seq<char>,
    fuzzy: bool,
    timeout_ms: u64,
    at: int,
) -> Asked<Rows> {
    if cwd.len() == 0 {
        Asked::Done((Seq::empty(), at))
    } else {
        match script_part(replies, generator, own_timeout, timeout_ms, at) {
            Asked::Asks(ask) => Asked::Asks(ask),
            Asked::Done((raw, next)) => match custom_part(
                replies,
                generator,
                query,
                timeout_ms,
                next,
            ) {
                Asked::Asks(ask) => Asked::Asks(ask),
                Asked::Done((custom, after)) => Asked::Done(
                    (
                        shown_rows(raw, query, fuzzy) + shown_rows(custom, query, fuzzy),
                        after,
                    ),
                ),
            },
        }
    }
}

/// Computes [`hosted_part`].
fn run_js_generators(
    replies: &[Reply],
    generator: &GeneratorSpec,
    own_timeout: Option<i64>,
    cwd: &str,
    query: &str,
    fuzzy: bool,
    timeout_ms: u64,
    at: usize,
) -> (out: Result<(Vec<Suggestion>, usize), Ask>)
    requires
        at <= replies@.len(),
    ensures
        is_answer(
            out,
            hosted_part(
                replies@,
                *generator,
                own_timeout,
                cwd@,
                query@,
                fuzzy,
                timeout_ms,
                at as int,
            ),
            replies@.len(),
        ),
{
    if cwd.is_empty() {
        return Ok((no_rows(), at));
    }
    let (raw, next) = match run_script_or_post_process(
        replies,
        generator,
        own_timeout,
        timeout_ms,
        at,
    ) {
        Ok(part) => part,
        Err(ask) => {
            return Err(ask);
        },
    };
    let mut out = filter_generated(&raw, query, fuzzy);
    let mut after: usize = next;
    let mut custom = no_rows();
    if let Some(hook) = &generator.js_custom {
        if next >= replies.len() {
            return Err(
                Ask::Custom { hook: hook.clone(), search_term: query.to_owned(), timeout_ms },
            );
        }
        custom = rows_or_none(&replies[next]);
        after = next + 1;
    }
    extend_rows(&mut out, filter_generated(&custom, query, fuzzy));
    Ok((out, after))
}

/// The rows of a fixed script where no hooks can run: the parts between
/// separators that match.
pub open spec fn plain_script_part(
    replies: Seq<Reply>,
    generator: GeneratorSpec,
    cwd: Seq<char>,
    query: Seq<char>,
    fuzzy: bool,
    timeout_ms: u64,
    at: int,
) -> Asked<Rows> {
    let script = texts(generator.script@);
    if script.len() == 0 || cwd.len() == 0 {
        Asked::Done((Seq::empty(), at))
    } else if at < replies.len() {
        match generator.split_on {
            Some(separator) => Asked::Done(
                (
                    name_rows(
                        at_most(
                            matching(
                                output_parts(or_none(output_in(replies[at])), separator@),
                                query,
                                fuzzy,
                            ),
                            MAX_RESULTS as nat,
                        ),
                        Seq::empty(),
                        "arg"@,
                        true,
                    ),
                    at + 1,
                ),
            ),
            None => Asked::Done((Seq::empty(), at + 1)),
        }
    } else {
        Asked::Asks(AskView::Script { command: script[0], args: script.skip(1), timeout_ms })
    }
}

/// Computes [`plain_script_part`].
fn run_script(
    replies: &[Reply],
    generator: &GeneratorSpec,
    cwd: &str,
    query: &str,
    fuzzy: bool,
    timeout_ms: u64,
    at: usize,
) -> (out: Result<(Vec<Suggestion>, usize), Ask>)
    requires
        at <= replies@.len(),
    ensures
        is_answer(
            out,
            plain_script_part(replies@, *generator, cwd@, query@, fuzzy, timeout_ms, at as int),
            replies@.len(),
        ),
{
    if generator.script.len() == 0 || cwd.is_empty() {
        return Ok((no_rows(), at));
    }
    if at >= replies.len() {
        return Err(
            Ask::Script {
                command: generator.script[0].clone(),
                args: copy_tail(&generator.script),
                timeout_ms,
            },
        );
    }
    match &generator.split_on {
        Some(separator) => {
            let stdout = output_or_empty(&replies[at]);
            Ok((filter_split(&stdout, query, fuzzy, separator), at + 1))
        },
        None => Ok((no_rows(), at + 1)),
    }
}

// ---------------------------------------------------------------------------
// Templates
// ---------------------------------------------------------------------------
/// Whether a generator lists files or folders.
pub open spec fn lists_paths(generator: GeneratorSpec) -> bool {
    generator.templates@.contains(Template::Filepaths) || generator.templates@.contains(
        Template::Folders,
    )
}

fn has_template(list: &[Template], template: Template) -> (found: bool)
    ensures
        found == list@.contains(template),
{
    let mut i: usize = 0;
    while i < list.len()
        invariant
            i <= list@.len(),
            forall|k: int| 0 <= k < i ==> list@[k] != template,
        decreases list@.len() - i,
    {
        if list[i] == template {
            proof {
                assert(list@[i as int] == template);
            }
            return true;
        }
        i += 1;
    }
    false
}

/// Computes [`lists_paths`].
pub fn generator_lists_paths(generator: &GeneratorSpec) -> (yes: bool)
    ensures
        yes == lists_paths(*generator),
{
    has_template(&generator.templates, Template::Filepaths) || has_template(
        &generator.templates,
        Template::Folders,
    )
}

/// The restrictions of a generator on path rows.
pub open spec fn path_filter(
    generator: GeneratorSpec,
    environment: Seq<(String, String)>,
) -> FilterView {
    let shows = opt_text(generator.show_folders);
    FilterView {
        folders_only: (generator.templates@.contains(Template::Folders)
            && !generator.templates@.contains(Template::Filepaths)) || shows == Some("only"@),
        files_only: shows == Some("never"@),
        extensions: texts(generator.extensions@),
        equals: texts(generator.equals@),
        filter_folders: generator.filter_folders == Some(true),
        file_priority: generator.file_priority,
        folder_priority: generator.folder_priority,
        root_directory: opt_text(generator.root_directory),
        environment,
        matches: opt_text(generator.matches),
        matches_flags: opt_text(generator.matches_flags),
    }
}

fn says(value: &Option<String>, text: &str) -> (yes: bool)
    ensures
        yes == (opt_text(*value) == Some(text@)),
{
    match value {
        Some(value) => same(value, text),
        None => false,
    }
}

/// Computes [`path_filter`].
pub fn filter_for_paths<'a>(
    generator: &'a GeneratorSpec,
    environment: &'a [(String, String)],
) -> (filter: PathFilter<'a>)
    ensures
        filter@ == path_filter(*generator, environment@),
{
    let folders_only = (has_template(&generator.templates, Template::Folders) && !has_template(
        &generator.templates,
        Template::Filepaths,
    )) || says(&generator.show_folders, "only");
    let filter_folders = match generator.filter_folders {
        Some(yes) => yes,
        None => false,
    };
    PathFilter {
        folders_only,
        files_only: says(&generator.show_folders, "never"),
        extensions: generator.extensions.as_slice(),
        equals: generator.equals.as_slice(),
        filter_folders,
        file_priority: generator.file_priority,
        folder_priority: generator.folder_priority,
        root_directory: as_text(&generator.root_directory),
        environment,
        matches: as_text(&generator.matches),
        matches_flags: as_text(&generator.matches_flags),
    }
}

/// The rows of the path templates.
pub open spec fn path_part(
    input: GenerateInput<'_>,
    generator: GeneratorSpec,
    at: int,
) -> Asked<Rows> {
    let filter = path_filter(generator, input.environment@);
    if !lists_paths(generator) {
        Asked::Done((Seq::empty(), at))
    } else {
        match listed_parts(input.search_term@, input.cwd@, filter, *input.places) {
            None => Asked::Done((Seq::empty(), at)),
            Some((dir, query)) => if at < input.replies@.len() {
                Asked::Done(
                    (
                        rows_for_path(
                            input.search_term@,
                            input.cwd@,
                            input.fuzzy,
                            filter,
                            *input.places,
                            entries_in(input.replies@[at]),
                        ),
                        at + 1,
                    ),
                )
            } else {
                Asked::Asks(AskView::Directory { path: dir })
            },
        }
    }
}

fn run_paths(input: &GenerateInput<'_>, generator: &GeneratorSpec, at: usize) -> (out: Result<
    (Vec<Suggestion>, usize),
    Ask,
>)
    requires
        at <= input.replies@.len(),
    ensures
        is_answer(out, path_part(*input, *generator, at as int), input.replies@.len()),
{
    if !generator_lists_paths(generator) {
        return Ok((no_rows(), at));
    }
    let filter = filter_for_paths(generator, input.environment);
    let path = match directory_to_list(input.search_term, input.cwd, &filter, input.places) {
        Some((path, _)) => path,
        None => {
            return Ok((no_rows(), at));
        },
    };
    if at >= input.replies.len() {
        return Err(Ask::Directory { path });
    }
    let entries = match &input.replies[at] {
        Reply::Entries(Some(entries)) => Some(entries.as_slice()),
        _ => None,
    };
    let out = complete_path_filtered(
        input.search_term,
        input.cwd,
        input.fuzzy,
        &filter,
        input.places,
        entries,
    );
    Ok((out, at + 1))
}

/// The rows of all templates: paths, then history, then what a hook keeps of
/// both.
pub open spec fn template_part(
    input: GenerateInput<'_>,
    generator: GeneratorSpec,
    query: Seq<char>,
    at: int,
) -> Asked<Rows> {
    match path_part(input, generator, at) {
        Asked::Asks(ask) => Asked::Asks(ask),
        Asked::Done((paths, next)) => {
            let history: Seq<SuggestionView> = if generator.templates@.contains(
                Template::History,
            ) {
                name_rows(
                    matching_or_all(texts(input.history_values@), query, input.fuzzy),
                    Seq::empty(),
                    "arg"@,
                    true,
                )
            } else {
                Seq::empty()
            };
            let all = paths + history;
            match (generator.js_filter_template_suggestions, input.host_cwd) {
                (Some(hook), Some(_)) => if next < input.replies@.len() {
                    match rows_of_reply(input.replies@[next]) {
                        Some(kept) => Asked::Done((kept, next + 1)),
                        None => Asked::Done((all, next + 1)),
                    }
                } else {
                    Asked::Asks(AskView::FilterTemplates { hook: hook@, rows: all })
                },
                _ => Asked::Done((all, next)),
            }
        },
    }
}

/// Computes [`template_part`].
fn run_templates(
    input: &GenerateInput<'_>,
    generator: &GeneratorSpec,
    query: &str,
    at: usize,
) -> (out: Result<(Vec<Suggestion>, usize), Ask>)
    requires
        at <= input.replies@.len(),
    ensures
        is_answer(
            out,
            template_part(*input, *generator, query@, at as int),
            input.replies@.len(),
        ),
{
    let (mut all, next) = match run_paths(input, generator, at) {
        Ok(part) => part,
        Err(ask) => {
            return Err(ask);
        },
    };
    let ghost paths = rows(all@);
    proof {
        assert(paths + Seq::<SuggestionView>::empty() =~= paths);
    }
    if has_template(&generator.templates, Template::History) {
        let history = history_template_suggestions(input.history_values, query, input.fuzzy);
        extend_rows(&mut all, history);
    }
    if let Some(hook) = &generator.js_filter_template_suggestions {
        if input.host_cwd.is_some() {
            if next >= input.replies.len() {
                return Err(Ask::FilterTemplates { hook: hook.clone(), rows: all });
            }
            return match &input.replies[next] {
                Reply::Rows(Some(kept)) => Ok((copy_rows(kept), next + 1)),
                _ => Ok((all, next + 1)),
            };
        }
    }
    Ok((all, next))
}

// ---------------------------------------------------------------------------
// The whole generator
// ---------------------------------------------------------------------------
/// The directory in which scripts run where hooks can.
pub open spec fn script_dir(cwd: Seq<char>, host_cwd: Seq<char>) -> Seq<char> {
    if cwd.len() == 0 {
        host_cwd
    } else {
        cwd
    }
}

/// The time limit of a generator.
pub open spec fn generator_timeout(arg: ArgSpec, generator: GeneratorSpec, configured_ms: i64) -> int {
    script_timeout(
        signed_limit(script_timeout(configured_ms, arg.script_timeout_ms, None) as u64),
        or_other(generator.script_timeout_ms, arg.script_timeout_ms),
        None,
    )
}

/// The rows of scripts and hooks.
#[verifier::opaque]
pub open spec fn command_part(
    input: GenerateInput<'_>,
    arg: ArgSpec,
    generator: GeneratorSpec,
    query: Seq<char>,
    timeout_ms: u64,
    at: int,
) -> Asked<Rows> {
    match input.host_cwd {
        Some(host_cwd) => hosted_part(
            input.replies@,
            generator,
            or_other(generator.script_timeout_ms, arg.script_timeout_ms),
            script_dir(input.cwd@, host_cwd@),
            query,
            input.fuzzy,
            timeout_ms,
            at,
        ),
        None => plain_script_part(
            input.replies@,
            generator,
            input.cwd@,
            query,
            input.fuzzy,
            timeout_ms,
            at,
        ),
    }
}

/// The rows of a generator: built-in ones, then those of scripts and hooks,
/// then templates.
pub open spec fn generated(
    input: GenerateInput<'_>,
    arg: ArgSpec,
    generator: GeneratorSpec,
    query: Seq<char>,
    at: int,
) -> Asked<Rows> {
    let timeout_ms = generator_timeout(arg, generator, input.configured_timeout_ms) as u64;
    let builtins = builtins_of(arg, generator);
    match builtin_part(
        input.replies@,
        builtins,
        query,
        input.fuzzy,
        timeout_ms,
        at,
        builtins.len() as int,
    ) {
        Asked::Asks(ask) => Asked::Asks(ask),
        Asked::Done((first, second_at)) => match command_part(
            input,
            arg,
            generator,
            query,
            timeout_ms,
            second_at,
        ) {
            Asked::Asks(ask) => Asked::Asks(ask),
            Asked::Done((second, third_at)) => match template_part(
                input,
                generator,
                query,
                third_at,
            ) {
                Asked::Asks(ask) => Asked::Asks(ask),
                Asked::Done((third, after)) => Asked::Done((first + second + third, after)),
            },
        },
    }
}

/// Computes [`generated`], from the reply at `at` on.
pub fn generate_from_generator(
    input: &GenerateInput<'_>,
    arg: &ArgSpec,
    generator: &GeneratorSpec,
    query: &str,
    at: usize,
) -> (out: Result<(Vec<Suggestion>, usize), Ask>)
    requires
        at <= input.replies@.len(),
    ensures
        is_answer(
            out,
            generated(*input, *arg, *generator, query@, at as int),
            input.replies@.len(),
        ),
{
    proof {
        reveal(command_part);
    }
    let arg_limit = effective_script_timeout_ms(
        input.configured_timeout_ms,
        arg.script_timeout_ms,
        None,
    );
    let own_timeout: Option<i64> = match generator.script_timeout_ms {
        Some(limit) => Some(limit),
        None => arg.script_timeout_ms,
    };
    let timeout_ms = effective_script_timeout_ms(limit_as_signed(arg_limit), own_timeout, None);
    let builtins = collect_builtins(arg, generator);
    let (mut out, second_at) = match run_builtins(
        input.replies,
        &builtins,
        query,
        input.fuzzy,
        timeout_ms,
        at,
    ) {
        Ok(part) => part,
        Err(ask) => {
            return Err(ask);
        },
    };
    let commands = match input.host_cwd {
        Some(host_cwd) => {
            let cwd = if input.cwd.is_empty() {
                host_cwd
            } else {
                input.cwd
            };
            run_js_generators(
                input.replies,
                generator,
                own_timeout,
                cwd,
                query,
                input.fuzzy,
                timeout_ms,
                second_at,
            )
        },
        None => run_script(
            input.replies,
            generator,
            input.cwd,
            query,
            input.fuzzy,
            timeout_ms,
            second_at,
        ),
    };
    let (second, third_at) = match commands {
        Ok(part) => part,
        Err(ask) => {
            return Err(ask);
        },
    };
    extend_rows(&mut out, second);
    let (third, after) = match run_templates(input, generator, query, third_at) {
        Ok(part) => part,
        Err(ask) => {
            return Err(ask);
        },
    };
    extend_rows(&mut out, third);
    Ok((out, after))
}

// ---------------------------------------------------------------------------
// Laws
// ---------------------------------------------------------------------------
/// Whether replies are others with more behind them.
pub open spec fn continues(more: Seq<Reply>, replies: Seq<Reply>) -> bool {
    replies.len() <= more.len() && forall|i: int|
        0 <= i < replies.len() ==> #[trigger] more[i] == replies[i]
}

proof fn lemma_builtins_stand(
    replies: Seq<Reply>,
    more: Seq<Reply>,
    list: Seq<Builtin>,
    query: Seq<char>,
    fuzzy: bool,
    timeout_ms: u64,
    at: int,
    n: int,
)
    requires
        continues(more, replies),
        0 <= at,
        builtin_part(replies, list, query, fuzzy, timeout_ms, at, n) is Done,
    ensures
        builtin_part(more, list, query, fuzzy, timeout_ms, at, n) == builtin_part(
            replies,
            list,
            query,
            fuzzy,
            timeout_ms,
            at,
            n,
        ),
        builtin_part(replies, list, query, fuzzy, timeout_ms, at, n)->Done_0.1 >= 0,
    decreases n,
{
    if n > 0 {
        lemma_builtins_stand(replies, more, list, query, fuzzy, timeout_ms, at, n - 1);
    }
}

proof fn lemma_commands_stand(
    input: GenerateInput<'_>,
    later: GenerateInput<'_>,
    arg: ArgSpec,
    generator: GeneratorSpec,
    query: Seq<char>,
    timeout_ms: u64,
    at: int,
)
    requires
        0 <= at,
        continues(later.replies@, input.replies@),
        later == (GenerateInput { replies: later.replies, ..input }),
        command_part(input, arg, generator, query, timeout_ms, at) is Done,
    ensures
        command_part(later, arg, generator, query, timeout_ms, at) == command_part(
            input,
            arg,
            generator,
            query,
            timeout_ms,
            at,
        ),
        command_part(input, arg, generator, query, timeout_ms, at)->Done_0.1 >= 0,
{
    reveal(command_part);
}

proof fn lemma_templates_stand(
    input: GenerateInput<'_>,
    later: GenerateInput<'_>,
    generator: GeneratorSpec,
    query: Seq<char>,
    at: int,
)
    requires
        0 <= at,
        continues(later.replies@, input.replies@),
        later == (GenerateInput { replies: later.replies, ..input }),
        template_part(input, generator, query, at) is Done,
    ensures
        template_part(later, generator, query, at) == template_part(input, generator, query, at),
        template_part(input, generator, query, at)->Done_0.1 >= 0,
{
}

/// A generator that is done stays as it is when further replies come in.
pub proof fn law_finished_generators_stand(
    input: GenerateInput<'_>,
    later: GenerateInput<'_>,
    arg: ArgSpec,
    generator: GeneratorSpec,
    query: Seq<char>,
    at: int,
)
    requires
        0 <= at,
        continues(later.replies@, input.replies@),
        later == (GenerateInput { replies: later.replies, ..input }),
        generated(input, arg, generator, query, at) is Done,
    ensures
        generated(later, arg, generator, query, at) == generated(input, arg, generator, query, at),
        generated(input, arg, generator, query, at)->Done_0.1 >= 0,
{
    let timeout_ms = generator_timeout(arg, generator, input.configured_timeout_ms) as u64;
    let builtins = builtins_of(arg, generator);
    lemma_builtins_stand(
        input.replies@,
        later.replies@,
        builtins,
        query,
        input.fuzzy,
        timeout_ms,
        at,
        builtins.len() as int,
    );
    if let Asked::Done((_, second_at)) = builtin_part(
        input.replies@,
        builtins,
        query,
        input.fuzzy,
        timeout_ms,
        at,
        builtins.len() as int,
    ) {
        lemma_commands_stand(input, later, arg, generator, query, timeout_ms, second_at);
        if let Asked::Done((_, third_at)) = command_part(
            input,
            arg,
            generator,
            query,
            timeout_ms,
            second_at,
        ) {
            lemma_templates_stand(input, later, generator, query, third_at);
        }
    }
}

/// Whether a request is for no hook, or for one that the generator names. An
/// output is handed to one only where the generator has no separator, and one
/// that computes rows is handed the query.
pub open spec fn asks_named_hooks(
    ask: AskView,
    generator: GeneratorSpec,
    query: Seq<char>,
) -> bool {
    match ask {
        AskView::ScriptCommand { hook } => opt_text(generator.js_script) == Some(hook),
        AskView::PostProcess { hook, stdout } => opt_text(generator.js_post_process) == Some(hook)
            && generator.split_on is None,
        AskView::Custom { hook, search_term, timeout_ms } => opt_text(generator.js_custom) == Some(
            hook,
        ) && search_term == query,
        AskView::FilterTemplates { hook, rows } => opt_text(
            generator.js_filter_template_suggestions,
        ) == Some(hook),
        _ => true,
    }
}

/// Whether a request is for a hook.
pub open spec fn is_for_hook(ask: AskView) -> bool {
    ask is ScriptCommand || ask is PostProcess || ask is Custom || ask is FilterTemplates
}

proof fn lemma_builtins_ask_no_hooks(
    replies: Seq<Reply>,
    list: Seq<Builtin>,
    query: Seq<char>,
    fuzzy: bool,
    timeout_ms: u64,
    at: int,
    n: int,
)
    ensures
        builtin_part(replies, list, query, fuzzy, timeout_ms, at, n) matches Asked::Asks(ask)
            ==> !is_for_hook(ask),
    decreases n,
{
    if n > 0 {
        lemma_builtins_ask_no_hooks(replies, list, query, fuzzy, timeout_ms, at, n - 1);
    }
}

/// A generator asks for a hook only where it names one and hooks can run, and
/// hands its own query to one that computes rows.
pub proof fn law_only_named_hooks_run(
    input: GenerateInput<'_>,
    arg: ArgSpec,
    generator: GeneratorSpec,
    query: Seq<char>,
    at: int,
)
    ensures
        generated(input, arg, generator, query, at) matches Asked::Asks(ask) ==> asks_named_hooks(
            ask,
            generator,
            query,
        ) && (is_for_hook(ask) ==> input.host_cwd is Some),
{
    let timeout_ms = generator_timeout(arg, generator, input.configured_timeout_ms) as u64;
    let builtins = builtins_of(arg, generator);
    let n = builtins.len() as int;
    lemma_builtins_ask_no_hooks(
        input.replies@,
        builtins,
        query,
        input.fuzzy,
        timeout_ms,
        at,
        n,
    );
    if let Asked::Done((_, second_at)) = builtin_part(
        input.replies@,
        builtins,
        query,
        input.fuzzy,
        timeout_ms,
        at,
        n,
    ) {
        lemma_commands_ask_named_hooks(input, arg, generator, query, timeout_ms, second_at);
    }
}

proof fn lemma_commands_ask_named_hooks(
    input: GenerateInput<'_>,
    arg: ArgSpec,
    generator: GeneratorSpec,
    query: Seq<char>,
    timeout_ms: u64,
    at: int,
)
    ensures
        command_part(input, arg, generator, query, timeout_ms, at) matches Asked::Asks(ask)
            ==> asks_named_hooks(ask, generator, query) && (is_for_hook(ask) ==> input.host_cwd is Some),
{
    reveal(command_part);
}

} // verus!
